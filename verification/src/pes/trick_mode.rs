//! The `DSM_trick_mode` byte.
use vstd::prelude::*;

verus! {

/// Which field(s) of a picture to display in a trick mode.
#[derive(Debug, Clone, Copy, PartialEq, Eq, Structural)]
pub enum FieldId {
    /// `'00'`: display from the top field only.
    TopFieldOnly,
    /// `'01'`: display from the bottom field only.
    BottomFieldOnly,
    /// `'10'`: display the complete frame.
    CompleteFrame,
    /// `'11'`: reserved.
    Reserved,
}

impl FieldId {
    /// The 2-bit code.
    pub open spec fn code(self) -> u8 {
        match self {
            FieldId::TopFieldOnly => 0,
            FieldId::BottomFieldOnly => 1,
            FieldId::CompleteFrame => 2,
            FieldId::Reserved => 3,
        }
    }

    fn from_bits(b: u8) -> (r: Self)
        ensures
            r.code() == b & 3,
    {
        assert(b & 3 <= 3) by (bit_vector);
        match b & 3 {
            0 => FieldId::TopFieldOnly,
            1 => FieldId::BottomFieldOnly,
            2 => FieldId::CompleteFrame,
            _ => FieldId::Reserved,
        }
    }

    /// The 2-bit code.
    pub fn to_bits(self) -> (r: u8)
        ensures
            r == self.code(),
            r <= 3,
    {
        match self {
            FieldId::TopFieldOnly => 0,
            FieldId::BottomFieldOnly => 1,
            FieldId::CompleteFrame => 2,
            FieldId::Reserved => 3,
        }
    }
}

/// Which coefficients may be non-zero.
#[derive(Debug, Clone, Copy, PartialEq, Eq, Structural)]
pub enum CoefficientSelection {
    /// `'00'`: only DC coefficients.
    DcOnly,
    /// `'01'`: only the first three.
    FirstThree,
    /// `'10'`: only the first six.
    FirstSix,
    /// `'11'`: all.
    All,
}

impl CoefficientSelection {
    /// The 2-bit code.
    pub open spec fn code(self) -> u8 {
        match self {
            CoefficientSelection::DcOnly => 0,
            CoefficientSelection::FirstThree => 1,
            CoefficientSelection::FirstSix => 2,
            CoefficientSelection::All => 3,
        }
    }

    fn from_bits(b: u8) -> (r: Self)
        ensures
            r.code() == b & 3,
    {
        assert(b & 3 <= 3) by (bit_vector);
        match b & 3 {
            0 => CoefficientSelection::DcOnly,
            1 => CoefficientSelection::FirstThree,
            2 => CoefficientSelection::FirstSix,
            _ => CoefficientSelection::All,
        }
    }

    /// The 2-bit code.
    pub fn to_bits(self) -> (r: u8)
        ensures
            r == self.code(),
            r <= 3,
    {
        match self {
            CoefficientSelection::DcOnly => 0,
            CoefficientSelection::FirstThree => 1,
            CoefficientSelection::FirstSix => 2,
            CoefficientSelection::All => 3,
        }
    }
}

/// Decoded `DSM_trick_mode` byte: `trick_mode_control` and the five bits that
/// depend on it.
#[derive(Debug, Clone, Copy, PartialEq, Eq, Structural)]
pub enum DsmTrickMode {
    /// `'000'`: fast forward.
    FastForward {
        field_id: FieldId,
        intra_slice_refresh: bool,
        frequency_truncation: CoefficientSelection,
    },
    /// `'001'`: slow motion, with a 5-bit repeat control.
    SlowMotion { rep_cntrl: u8 },
    /// `'010'`: freeze frame.
    FreezeFrame { field_id: FieldId },
    /// `'011'`: fast reverse.
    FastReverse {
        field_id: FieldId,
        intra_slice_refresh: bool,
        frequency_truncation: CoefficientSelection,
    },
    /// `'100'`: slow reverse, with a 5-bit repeat control.
    SlowReverse { rep_cntrl: u8 },
    /// `'101'` to `'111'`: reserved; the five bits are kept as they are.
    Reserved { trick_mode_control: u8, bits: u8 },
}

impl DsmTrickMode {
    /// The value is one that a byte can announce: 5-bit tails, and reserved
    /// control values only where they are reserved.
    pub open spec fn is_coded(self) -> bool {
        match self {
            DsmTrickMode::SlowMotion { rep_cntrl } => rep_cntrl <= 0x1F,
            DsmTrickMode::SlowReverse { rep_cntrl } => rep_cntrl <= 0x1F,
            DsmTrickMode::Reserved { trick_mode_control, bits } => 5 <= trick_mode_control <= 7
                && bits <= 0x1F,
            _ => true,
        }
    }

    /// `self` is what the byte `b` announces.
    pub open spec fn announced_by(self, b: u8) -> bool {
        let control = (b >> 5) & 7;
        let tail = b & 0x1F;
        match self {
            DsmTrickMode::FastForward { field_id, intra_slice_refresh, frequency_truncation } => {
                &&& control == 0
                &&& field_id.code() == (tail >> 3) & 3
                &&& intra_slice_refresh == (tail & 4 != 0)
                &&& frequency_truncation.code() == tail & 3
            },
            DsmTrickMode::SlowMotion { rep_cntrl } => control == 1 && rep_cntrl == tail,
            DsmTrickMode::FreezeFrame { field_id } => control == 2 && field_id.code() == (tail >> 3)
                & 3,
            DsmTrickMode::FastReverse { field_id, intra_slice_refresh, frequency_truncation } => {
                &&& control == 3
                &&& field_id.code() == (tail >> 3) & 3
                &&& intra_slice_refresh == (tail & 4 != 0)
                &&& frequency_truncation.code() == tail & 3
            },
            DsmTrickMode::SlowReverse { rep_cntrl } => control == 4 && rep_cntrl == tail,
            DsmTrickMode::Reserved { trick_mode_control, bits } => control >= 5
                && trick_mode_control == control && bits == tail,
        }
    }

    /// The wire byte: freeze frame's reserved bits are ones, wide values are
    /// masked to their fields.
    pub open spec fn byte(self) -> u8 {
        match self {
            DsmTrickMode::FastForward { field_id, intra_slice_refresh, frequency_truncation } => (
            field_id.code() << 3) | (if intra_slice_refresh { 4u8 } else { 0 })
                | frequency_truncation.code(),
            DsmTrickMode::SlowMotion { rep_cntrl } => 0x20 | (rep_cntrl & 0x1F),
            DsmTrickMode::FreezeFrame { field_id } => 0x40 | (field_id.code() << 3) | 7,
            DsmTrickMode::FastReverse { field_id, intra_slice_refresh, frequency_truncation } => 0x60
                | (field_id.code() << 3) | (if intra_slice_refresh { 4u8 } else { 0 })
                | frequency_truncation.code(),
            DsmTrickMode::SlowReverse { rep_cntrl } => 0x80 | (rep_cntrl & 0x1F),
            DsmTrickMode::Reserved { trick_mode_control, bits } => ((trick_mode_control & 7) << 5)
                | (bits & 0x1F),
        }
    }

    /// Decode a raw byte.
    pub fn from_byte(b: u8) -> (r: Self)
        ensures
            r.announced_by(b),
    {
        let tail: u8 = b & 0x1F;
        assert((b >> 5) & 7 <= 7) by (bit_vector);
        match (b >> 5) & 7 {
            0 => DsmTrickMode::FastForward {
                field_id: FieldId::from_bits(tail >> 3),
                intra_slice_refresh: tail & 4 != 0,
                frequency_truncation: CoefficientSelection::from_bits(tail),
            },
            1 => DsmTrickMode::SlowMotion { rep_cntrl: tail },
            2 => DsmTrickMode::FreezeFrame { field_id: FieldId::from_bits(tail >> 3) },
            3 => DsmTrickMode::FastReverse {
                field_id: FieldId::from_bits(tail >> 3),
                intra_slice_refresh: tail & 4 != 0,
                frequency_truncation: CoefficientSelection::from_bits(tail),
            },
            4 => DsmTrickMode::SlowReverse { rep_cntrl: tail },
            control => DsmTrickMode::Reserved { trick_mode_control: control, bits: tail },
        }
    }

    /// Encode back to the wire byte. Freeze frame's three reserved bits are
    /// ones; a wide `rep_cntrl` is masked.
    pub fn to_byte(self) -> (r: u8)
        ensures
            r == self.byte(),
    {
        match self {
            DsmTrickMode::FastForward { field_id, intra_slice_refresh, frequency_truncation } => {
                (field_id.to_bits() << 3) | (if intra_slice_refresh { 4u8 } else { 0 })
                    | frequency_truncation.to_bits()
            },
            DsmTrickMode::SlowMotion { rep_cntrl } => 0x20 | (rep_cntrl & 0x1F),
            DsmTrickMode::FreezeFrame { field_id } => 0x40 | (field_id.to_bits() << 3) | 7,
            DsmTrickMode::FastReverse { field_id, intra_slice_refresh, frequency_truncation } => {
                0x60 | (field_id.to_bits() << 3) | (if intra_slice_refresh { 4u8 } else { 0 })
                    | frequency_truncation.to_bits()
            },
            DsmTrickMode::SlowReverse { rep_cntrl } => 0x80 | (rep_cntrl & 0x1F),
            DsmTrickMode::Reserved { trick_mode_control, bits } => {
                ((trick_mode_control & 7) << 5) | (bits & 0x1F)
            },
        }
    }
}

/// Exactly one value is announced by each byte.
pub proof fn lemma_announced_unique(a: DsmTrickMode, b: DsmTrickMode, byte: u8)
    requires
        a.announced_by(byte),
        b.announced_by(byte),
    ensures
        a == b,
{
}

/// Decoding a byte and encoding it again preserves every meaningful bit: only
/// freeze frame's three reserved bits change, to ones.
pub proof fn lemma_byte_survives(m: DsmTrickMode, b: u8)
    requires
        m.announced_by(b),
    ensures
        m.byte() == if (b >> 5) & 7 == 2 { b | 7 } else { b },
        m.is_coded(),
{
    lemma_byte_survives_bits(b);
}

proof fn lemma_byte_survives_bits(b: u8)
    by (bit_vector)
    ensures
        ({
            let tail = b & 0x1F;
            let f = (tail >> 3) & 3;
            let i = if tail & 4 != 0 { 4u8 } else { 0u8 };
            let c = tail & 3;
            let t = (b >> 5) & 7;
            &&& tail <= 0x1F
            &&& t <= 7
            &&& t == 0 ==> (f << 3) | i | c == b
            &&& t == 1 ==> 0x20 | (tail & 0x1F) == b
            &&& t == 2 ==> 0x40 | (f << 3) | 7 == b | 7
            &&& t == 3 ==> 0x60 | (f << 3) | i | c == b
            &&& t == 4 ==> 0x80 | (tail & 0x1F) == b
            &&& t >= 5 ==> ((t & 7) << 5) | (tail & 0x1F) == b
        }),
{
}

/// A mode that a byte can announce is announced by its own wire byte.
pub proof fn lemma_mode_survives(m: DsmTrickMode)
    requires
        m.is_coded(),
    ensures
        m.announced_by(m.byte()),
{
    match m {
        DsmTrickMode::FastForward { field_id, intra_slice_refresh, frequency_truncation } => {
            lemma_mode_survives_bits(
                field_id.code(),
                intra_slice_refresh,
                frequency_truncation.code(),
                0,
                5,
            );
        },
        DsmTrickMode::FastReverse { field_id, intra_slice_refresh, frequency_truncation } => {
            lemma_mode_survives_bits(
                field_id.code(),
                intra_slice_refresh,
                frequency_truncation.code(),
                0,
                5,
            );
        },
        DsmTrickMode::SlowMotion { rep_cntrl } => {
            lemma_mode_survives_bits(0, false, 0, rep_cntrl, 5);
        },
        DsmTrickMode::SlowReverse { rep_cntrl } => {
            lemma_mode_survives_bits(0, false, 0, rep_cntrl, 5);
        },
        DsmTrickMode::FreezeFrame { field_id } => {
            lemma_mode_survives_bits(field_id.code(), false, 0, 0, 5);
        },
        DsmTrickMode::Reserved { trick_mode_control, bits } => {
            lemma_mode_survives_bits(0, false, 0, bits, trick_mode_control);
        },
    }
}

proof fn lemma_mode_survives_bits(f: u8, i: bool, c: u8, tail: u8, control: u8)
    by (bit_vector)
    requires
        f <= 3,
        c <= 3,
        tail <= 0x1F,
        5 <= control <= 7,
    ensures
        ({
            let b0 = (f << 3) | (if i { 4u8 } else { 0 }) | c;
            let b3 = 0x60 | (f << 3) | (if i { 4u8 } else { 0 }) | c;
            let b1 = 0x20 | (tail & 0x1F);
            let b4 = 0x80 | (tail & 0x1F);
            let b2 = 0x40 | (f << 3) | 7;
            let b5 = ((control & 7) << 5) | (tail & 0x1F);
            &&& (b0 >> 5) & 7 == 0 && ((b0 & 0x1F) >> 3) & 3 == f && ((b0 & 0x1F) & 4 != 0) == i && (
            b0 & 0x1F) & 3 == c
            &&& (b3 >> 5) & 7 == 3 && ((b3 & 0x1F) >> 3) & 3 == f && ((b3 & 0x1F) & 4 != 0) == i && (
            b3 & 0x1F) & 3 == c
            &&& (b1 >> 5) & 7 == 1 && b1 & 0x1F == tail
            &&& (b4 >> 5) & 7 == 4 && b4 & 0x1F == tail
            &&& (b2 >> 5) & 7 == 2 && ((b2 & 0x1F) >> 3) & 3 == f
            &&& (b5 >> 5) & 7 == control && b5 & 0x1F == tail
        }),
{
}

} // verus!
