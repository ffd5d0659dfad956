//! 188-byte transport-stream packets.
//!
//! ```text
//! byte 0       sync_byte (0x47)
//! byte 1..3    transport_error_indicator (1) | payload_unit_start_indicator (1) |
//!              transport_priority (1) | PID (13) |
//!              transport_scrambling_control (2) | adaptation_field_control (2) |
//!              continuity_counter (4)
//! byte 4..     optional adaptation field, then payload
//! ```
//!
//! The adaptation field is a length byte, a flags byte and up to
//! five optional fields in flag order: PCR, OPCR, splice_countdown,
//! transport_private_data and the extension; 0xFF stuffing fills the rest.
use vstd::prelude::*;

use crate::error::TsError;

verus! {

/// Fixed size of a transport-stream packet.
pub const TS_PACKET_LEN: usize = 188;

/// Sync byte at offset 0 of every packet.
pub const TS_SYNC_BYTE: u8 = 0x47;

/// Largest adaptation field, its length byte included.
pub const MAX_ADAPTATION_FIELD_LEN: usize = 184;

/// Parsed adaptation field of a packet.
#[derive(Debug, Clone, Copy)]
pub struct AdaptationField<'a> {
    /// Value of the `adaptation_field_length` byte: the field occupies
    /// `length + 1` bytes.
    pub length: u8,
    /// `discontinuity_indicator`.
    pub discontinuity_indicator: bool,
    /// `random_access_indicator`.
    pub random_access_indicator: bool,
    /// `elementary_stream_priority_indicator`.
    pub elementary_stream_priority_indicator: bool,
    /// `PCR_flag`.
    pub pcr_flag: bool,
    /// `OPCR_flag`.
    pub opcr_flag: bool,
    /// `splicing_point_flag`.
    pub splicing_point_flag: bool,
    /// `transport_private_data_flag`.
    pub transport_private_data_flag: bool,
    /// `adaptation_field_extension_flag`.
    pub adaptation_field_extension_flag: bool,
    /// 33-bit `program_clock_reference_base`.
    pub pcr_base: Option<u64>,
    /// 9-bit `program_clock_reference_extension`.
    pub pcr_extension: Option<u16>,
    /// 33-bit `original_program_clock_reference_base`.
    pub opcr_base: Option<u64>,
    /// 9-bit `original_program_clock_reference_extension`.
    pub opcr_extension: Option<u16>,
    /// Signed 8-bit `splice_countdown`.
    pub splice_countdown: Option<i8>,
    /// `private_data_byte` run.
    pub transport_private_data: Option<&'a [u8]>,
    /// Decoded extension body.
    pub adaptation_field_extension: Option<AdaptationFieldExtension>,
    /// All bytes of the field, the length byte included.
    pub raw: &'a [u8],
}

/// Parsed `adaptation_field_extension` body.
#[derive(Debug, Clone, Copy, PartialEq, Eq)]
pub struct AdaptationFieldExtension {
    /// Value of the `adaptation_field_extension_length` byte.
    pub length: u8,
    /// `ltw_flag`.
    pub ltw_flag: bool,
    /// `piecewise_rate_flag`.
    pub piecewise_rate_flag: bool,
    /// `seamless_splice_flag`.
    pub seamless_splice_flag: bool,
    /// `ltw_valid_flag`.
    pub ltw_valid_flag: Option<bool>,
    /// 15-bit `ltw_offset`.
    pub ltw_offset: Option<u16>,
    /// 22-bit `piecewise_rate`.
    pub piecewise_rate: Option<u32>,
    /// 4-bit `splice_type`.
    pub splice_type: Option<u8>,
    /// 33-bit `DTS_next_AU` (90 kHz units).
    pub dts_next_au: Option<u64>,
}

impl AdaptationFieldExtension {
    /// The extension with no sub-field.
    pub open spec fn none() -> Self {
        AdaptationFieldExtension {
            length: 0,
            ltw_flag: false,
            piecewise_rate_flag: false,
            seamless_splice_flag: false,
            ltw_valid_flag: None,
            ltw_offset: None,
            piecewise_rate: None,
            splice_type: None,
            dts_next_au: None,
        }
    }
}

impl Default for AdaptationFieldExtension {
    fn default() -> (r: Self)
        ensures
            r == Self::none(),
    {
        AdaptationFieldExtension {
            length: 0,
            ltw_flag: false,
            piecewise_rate_flag: false,
            seamless_splice_flag: false,
            ltw_valid_flag: None,
            ltw_offset: None,
            piecewise_rate: None,
            splice_type: None,
            dts_next_au: None,
        }
    }
}

/// A parsed 188-byte packet.
#[derive(Debug, Clone, Copy)]
pub struct TsPacket<'a> {
    /// 13-bit PID.
    pub pid: u16,
    /// `payload_unit_start_indicator`.
    pub payload_unit_start: bool,
    /// `transport_error_indicator`.
    pub transport_error: bool,
    /// `transport_priority`.
    pub transport_priority: bool,
    /// 2-bit `transport_scrambling_control`.
    pub transport_scrambling_control: u8,
    /// 4-bit `continuity_counter`.
    pub continuity_counter: u8,
    /// Adaptation field, when `adaptation_field_control` announces one.
    pub adaptation_field: Option<AdaptationField<'a>>,
    /// Bytes after the header and the adaptation field; empty when
    /// `adaptation_field_control` announces no payload.
    pub payload: &'a [u8],
    /// All 188 bytes.
    pub bytes: &'a [u8],
}

// ---------------------------------------------------------------------------
// What a parse means
// ---------------------------------------------------------------------------

/// Abstract value of an [`AdaptationField`].
pub struct AdaptationFieldView {
    pub length: u8,
    pub discontinuity_indicator: bool,
    pub random_access_indicator: bool,
    pub elementary_stream_priority_indicator: bool,
    pub pcr_flag: bool,
    pub opcr_flag: bool,
    pub splicing_point_flag: bool,
    pub transport_private_data_flag: bool,
    pub adaptation_field_extension_flag: bool,
    pub pcr_base: Option<u64>,
    pub pcr_extension: Option<u16>,
    pub opcr_base: Option<u64>,
    pub opcr_extension: Option<u16>,
    pub splice_countdown: Option<i8>,
    pub transport_private_data: Option<Seq<u8>>,
    pub adaptation_field_extension: Option<AdaptationFieldExtension>,
    pub raw: Seq<u8>,
}

impl<'a> View for AdaptationField<'a> {
    type V = AdaptationFieldView;

    open spec fn view(&self) -> AdaptationFieldView {
        AdaptationFieldView {
            length: self.length,
            discontinuity_indicator: self.discontinuity_indicator,
            random_access_indicator: self.random_access_indicator,
            elementary_stream_priority_indicator: self.elementary_stream_priority_indicator,
            pcr_flag: self.pcr_flag,
            opcr_flag: self.opcr_flag,
            splicing_point_flag: self.splicing_point_flag,
            transport_private_data_flag: self.transport_private_data_flag,
            adaptation_field_extension_flag: self.adaptation_field_extension_flag,
            pcr_base: self.pcr_base,
            pcr_extension: self.pcr_extension,
            opcr_base: self.opcr_base,
            opcr_extension: self.opcr_extension,
            splice_countdown: self.splice_countdown,
            transport_private_data: match self.transport_private_data {
                Some(d) => Some(d@),
                None => None,
            },
            adaptation_field_extension: self.adaptation_field_extension,
            raw: self.raw@,
        }
    }
}

/// Abstract value of a [`TsPacket`].
pub struct TsPacketView {
    pub pid: u16,
    pub payload_unit_start: bool,
    pub transport_error: bool,
    pub transport_priority: bool,
    pub transport_scrambling_control: u8,
    pub continuity_counter: u8,
    pub adaptation_field: Option<AdaptationFieldView>,
    pub payload: Seq<u8>,
    pub bytes: Seq<u8>,
}

impl<'a> View for TsPacket<'a> {
    type V = TsPacketView;

    open spec fn view(&self) -> TsPacketView {
        TsPacketView {
            pid: self.pid,
            payload_unit_start: self.payload_unit_start,
            transport_error: self.transport_error,
            transport_priority: self.transport_priority,
            transport_scrambling_control: self.transport_scrambling_control,
            continuity_counter: self.continuity_counter,
            adaptation_field: match self.adaptation_field {
                Some(af) => Some(af@),
                None => None,
            },
            payload: self.payload@,
            bytes: self.bytes@,
        }
    }
}

/// 33-bit base of the 6-byte clock reference that starts at `raw[at]`.
pub open spec fn clock_base_at(raw: Seq<u8>, at: int) -> u64 {
    ((raw[at] as u64) << 25) | ((raw[at + 1] as u64) << 17) | ((raw[at + 2] as u64) << 9) | ((
    raw[at + 3] as u64) << 1) | (((raw[at + 4] >> 7) & 1) as u64)
}

/// 9-bit extension of the 6-byte clock reference that starts at `raw[at]`.
pub open spec fn clock_extension_at(raw: Seq<u8>, at: int) -> u16 {
    (((raw[at + 4] & 1) as u16) << 8) | (raw[at + 5] as u16)
}

/// 33-bit timestamp of the 5-byte marker form that starts at `raw[at]`: three
/// bits, eight, seven, eight and seven, each odd byte ending in a marker.
pub open spec fn ts33_at(raw: Seq<u8>, at: int) -> u64 {
    ((((raw[at] >> 1) & 0x07) as u64) << 30) | ((raw[at + 1] as u64) << 22) | ((((raw[at + 2] >> 1)
        & 0x7F) as u64) << 15) | ((raw[at + 3] as u64) << 7) | (((raw[at + 4] >> 1) & 0x7F) as u64)
}

/// Where the OPCR stands in adaptation field `raw`.
pub open spec fn af_opcr_at(raw: Seq<u8>) -> int {
    if raw[1] & 0x10 != 0 { 8 } else { 2 }
}

/// Where the splice countdown stands.
pub open spec fn af_splice_at(raw: Seq<u8>) -> int {
    af_opcr_at(raw) + if raw[1] & 0x08 != 0 { 6int } else { 0 }
}

/// Where the private-data length stands.
pub open spec fn af_private_at(raw: Seq<u8>) -> int {
    af_splice_at(raw) + if raw[1] & 0x04 != 0 { 1int } else { 0 }
}

/// Where the extension length stands.
pub open spec fn af_extension_at(raw: Seq<u8>) -> int {
    af_private_at(raw) + if raw[1] & 0x02 != 0 { 1 + raw[af_private_at(raw)] as int } else { 0 }
}

/// Where the piecewise rate of an extension stands whose length byte is `raw[at]`.
pub open spec fn ext_rate_at(raw: Seq<u8>, at: int) -> int {
    at + 2 + if raw[at + 1] & 0x80 != 0 { 2int } else { 0 }
}

/// Where the seamless-splice fields of that extension stand.
pub open spec fn ext_splice_at(raw: Seq<u8>, at: int) -> int {
    ext_rate_at(raw, at) + if raw[at + 1] & 0x40 != 0 { 3int } else { 0 }
}

/// The first part of an extension at `raw[at]` that does not fit, if any.
pub open spec fn extension_error(raw: Seq<u8>, at: int) -> Option<TsError> {
    let n = raw.len() as int;
    let end = at + 1 + raw[at];
    if at + 1 > n {
        Some(crate::error::truncated("TS adaptation_field_extension_length", n - at, 1))
    } else if end > n {
        Some(crate::error::truncated("TS adaptation_field_extension body", n - at - 1, raw[at] as int))
    } else if raw[at] == 0 {
        None
    } else if raw[at + 1] & 0x80 != 0 && at + 4 > end {
        Some(crate::error::truncated("TS adaptation_field ltw", end - at - 2, 2))
    } else if raw[at + 1] & 0x40 != 0 && ext_rate_at(raw, at) + 3 > end {
        Some(crate::error::truncated("TS adaptation_field piecewise_rate", end - ext_rate_at(raw, at), 3))
    } else if raw[at + 1] & 0x20 != 0 && ext_splice_at(raw, at) + 5 > end {
        Some(crate::error::truncated("TS adaptation_field seamless_splice", end - ext_splice_at(raw, at), 5))
    } else {
        None
    }
}

/// The extension that starts at `raw[at]`, when all of it fits.
pub open spec fn extension_value(raw: Seq<u8>, at: int) -> AdaptationFieldExtension {
    if raw[at] == 0 {
        AdaptationFieldExtension::none()
    } else {
        let flags = raw[at + 1];
        let ltw = flags & 0x80 != 0;
        let rate = flags & 0x40 != 0;
        let splice = flags & 0x20 != 0;
        let r = ext_rate_at(raw, at);
        let s = ext_splice_at(raw, at);
        AdaptationFieldExtension {
            length: raw[at],
            ltw_flag: ltw,
            piecewise_rate_flag: rate,
            seamless_splice_flag: splice,
            ltw_valid_flag: if ltw { Some(raw[at + 2] & 0x80 != 0) } else { None },
            ltw_offset: if ltw {
                Some((((raw[at + 2] & 0x7F) as u16) << 8) | (raw[at + 3] as u16))
            } else {
                None
            },
            piecewise_rate: if rate {
                Some((((raw[r] & 0x3F) as u32) << 16) | ((raw[r + 1] as u32) << 8) | (raw[r + 2] as u32))
            } else {
                None
            },
            splice_type: if splice { Some((raw[s] >> 4) & 0x0F) } else { None },
            dts_next_au: if splice { Some(ts33_at(raw, s)) } else { None },
        }
    }
}

/// The first part of adaptation field `raw` that does not fit, if any.
pub open spec fn adaptation_field_error(raw: Seq<u8>) -> Option<TsError> {
    let n = raw.len() as int;
    let p = af_private_at(raw);
    if raw[0] == 0 {
        None
    } else if n < 2 {
        Some(crate::error::truncated("TS adaptation_field flags", n, 2))
    } else if raw[1] & 0x10 != 0 && 8 > n {
        Some(crate::error::truncated("TS adaptation_field PCR", n - 2, 6))
    } else if raw[1] & 0x08 != 0 && af_opcr_at(raw) + 6 > n {
        Some(crate::error::truncated("TS adaptation_field OPCR", n - af_opcr_at(raw), 6))
    } else if raw[1] & 0x04 != 0 && af_splice_at(raw) + 1 > n {
        Some(crate::error::truncated("TS adaptation_field splice_countdown", n - af_splice_at(raw), 1))
    } else if raw[1] & 0x02 != 0 && p + 1 > n {
        Some(crate::error::truncated("TS adaptation_field transport_private_data_length", n - p, 1))
    } else if raw[1] & 0x02 != 0 && p + 1 + raw[p] > n {
        Some(crate::error::truncated("TS adaptation_field private_data", n - p - 1, raw[p] as int))
    } else if raw[1] & 0x01 != 0 {
        extension_error(raw, af_extension_at(raw))
    } else {
        None
    }
}

/// The fields of adaptation field `raw`, when all of them fit.
pub open spec fn adaptation_field_value(raw: Seq<u8>) -> AdaptationFieldView {
    if raw[0] == 0 {
        AdaptationFieldView {
            length: 0,
            discontinuity_indicator: false,
            random_access_indicator: false,
            elementary_stream_priority_indicator: false,
            pcr_flag: false,
            opcr_flag: false,
            splicing_point_flag: false,
            transport_private_data_flag: false,
            adaptation_field_extension_flag: false,
            pcr_base: None,
            pcr_extension: None,
            opcr_base: None,
            opcr_extension: None,
            splice_countdown: None,
            transport_private_data: None,
            adaptation_field_extension: None,
            raw,
        }
    } else {
        let f = raw[1];
        let p = af_private_at(raw);
        AdaptationFieldView {
            length: raw[0],
            discontinuity_indicator: f & 0x80 != 0,
            random_access_indicator: f & 0x40 != 0,
            elementary_stream_priority_indicator: f & 0x20 != 0,
            pcr_flag: f & 0x10 != 0,
            opcr_flag: f & 0x08 != 0,
            splicing_point_flag: f & 0x04 != 0,
            transport_private_data_flag: f & 0x02 != 0,
            adaptation_field_extension_flag: f & 0x01 != 0,
            pcr_base: if f & 0x10 != 0 { Some(clock_base_at(raw, 2)) } else { None },
            pcr_extension: if f & 0x10 != 0 { Some(clock_extension_at(raw, 2)) } else { None },
            opcr_base: if f & 0x08 != 0 {
                Some(clock_base_at(raw, af_opcr_at(raw)))
            } else {
                None
            },
            opcr_extension: if f & 0x08 != 0 {
                Some(clock_extension_at(raw, af_opcr_at(raw)))
            } else {
                None
            },
            splice_countdown: if f & 0x04 != 0 { Some(raw[af_splice_at(raw)] as i8) } else { None },
            transport_private_data: if f & 0x02 != 0 {
                Some(raw.subrange(p + 1, p + 1 + raw[p]))
            } else {
                None
            },
            adaptation_field_extension: if f & 0x01 != 0 {
                Some(extension_value(raw, af_extension_at(raw)))
            } else {
                None
            },
            raw,
        }
    }
}

/// What adaptation field `raw` (length byte first) decodes to.
pub open spec fn parse_adaptation_field_spec(raw: Seq<u8>) -> Result<AdaptationFieldView, TsError> {
    match adaptation_field_error(raw) {
        Some(e) => Err(e),
        None => Ok(adaptation_field_value(raw)),
    }
}

/// 13-bit PID of packet `b`.
pub open spec fn packet_pid(b: Seq<u8>) -> u16 {
    (((b[1] & 0x1F) as u16) << 8) | (b[2] as u16)
}

/// Whether `adaptation_field_control` of packet `b` announces an adaptation field.
pub open spec fn has_adaptation_field(b: Seq<u8>) -> bool {
    ((b[3] >> 4) & 3) & 2 != 0
}

/// Whether `adaptation_field_control` of packet `b` announces a payload.
pub open spec fn has_payload(b: Seq<u8>) -> bool {
    ((b[3] >> 4) & 3) & 1 != 0
}

/// Where the payload of packet `b` starts.
pub open spec fn payload_at(b: Seq<u8>) -> int {
    if has_adaptation_field(b) { 5 + b[4] as int } else { 4 }
}

/// What packet `b` decodes to, given its decoded adaptation field.
pub open spec fn packet_value(b: Seq<u8>, af: Option<AdaptationFieldView>) -> TsPacketView {
    TsPacketView {
        pid: packet_pid(b),
        payload_unit_start: b[1] & 0x40 != 0,
        transport_error: b[1] & 0x80 != 0,
        transport_priority: b[1] & 0x20 != 0,
        transport_scrambling_control: (b[3] >> 6) & 3,
        continuity_counter: b[3] & 0x0F,
        adaptation_field: af,
        payload: if has_payload(b) {
            b.subrange(payload_at(b), 188)
        } else {
            Seq::empty()
        },
        bytes: b,
    }
}

/// What the bytes `b` decode to as one packet.
pub open spec fn parse_packet_spec(b: Seq<u8>) -> Result<TsPacketView, TsError> {
    if b.len() != 188 {
        Err(crate::error::truncated("TS packet", b.len() as int, 188))
    } else if b[0] != 0x47 {
        Err(TsError::BadSyncByte(b[0]))
    } else if !has_adaptation_field(b) {
        Ok(packet_value(b, None))
    } else if payload_at(b) > 188 {
        Err(crate::error::truncated("TS adaptation_field", 184, b[4] + 1))
    } else {
        match parse_adaptation_field_spec(b.subrange(4, payload_at(b))) {
            Ok(af) => Ok(packet_value(b, Some(af))),
            Err(e) => Err(e),
        }
    }
}

// ---------------------------------------------------------------------------
// Parsing
// ---------------------------------------------------------------------------

impl<'a> TsPacket<'a> {
    /// Parse one 188-byte packet.
    ///
    /// Returns [`TsError::Truncated`] when `bytes.len() != 188` or when the
    /// adaptation field does not fit, and [`TsError::BadSyncByte`] when byte 0
    /// is not `0x47`.
    pub fn parse(bytes: &'a [u8]) -> (r: Result<Self, TsError>)
        ensures
            match r {
                Ok(p) => parse_packet_spec(bytes@) == Ok::<TsPacketView, TsError>(p@),
                Err(e) => parse_packet_spec(bytes@) == Err::<TsPacketView, TsError>(e),
            },
    {
        if bytes.len() != TS_PACKET_LEN {
            return Err(
                TsError::Truncated { what: "TS packet", have: bytes.len(), need: TS_PACKET_LEN },
            );
        }
        if bytes[0] != TS_SYNC_BYTE {
            return Err(TsError::BadSyncByte(bytes[0]));
        }
        let b1: u8 = bytes[1];
        let b2: u8 = bytes[2];
        let b3: u8 = bytes[3];
        let afc: u8 = (b3 >> 4) & 3;
        let has_af: bool = afc & 2 != 0;
        let mut cursor: usize = 4;
        let mut adaptation_field: Option<AdaptationField<'a>> = None;
        if has_af {
            let af_total: usize = bytes[4] as usize + 1;
            let af_end: usize = 4 + af_total;
            if af_end > TS_PACKET_LEN {
                return Err(
                    TsError::Truncated {
                        what: "TS adaptation_field",
                        have: TS_PACKET_LEN - 4,
                        need: af_total,
                    },
                );
            }
            let af_raw: &'a [u8] = &bytes[4..af_end];
            adaptation_field = Some(parse_adaptation_field(af_raw)?);
            cursor = af_end;
        }
        let payload: &'a [u8] = if afc & 1 != 0 {
            &bytes[cursor..TS_PACKET_LEN]
        } else {
            &bytes[0..0]
        };
        proof {
            if !has_payload(bytes@) {
                assert(payload@ =~= Seq::<u8>::empty());
            }
        }
        Ok(
            TsPacket {
                pid: (((b1 & 0x1F) as u16) << 8) | (b2 as u16),
                payload_unit_start: b1 & 0x40 != 0,
                transport_error: b1 & 0x80 != 0,
                transport_priority: b1 & 0x20 != 0,
                transport_scrambling_control: (b3 >> 6) & 3,
                continuity_counter: b3 & 0x0F,
                adaptation_field,
                payload,
                bytes,
            },
        )
    }
}

/// Decode an adaptation field; `raw` starts at its length byte.
fn parse_adaptation_field<'a>(raw: &'a [u8]) -> (r: Result<AdaptationField<'a>, TsError>)
    requires
        raw@.len() >= 1,
    ensures
        match r {
            Ok(af) => parse_adaptation_field_spec(raw@) == Ok::<AdaptationFieldView, TsError>(af@),
            Err(e) => parse_adaptation_field_spec(raw@) == Err::<AdaptationFieldView, TsError>(e),
        },
{
    let length: u8 = raw[0];
    if length == 0 {
        return Ok(
            AdaptationField {
                length: 0,
                discontinuity_indicator: false,
                random_access_indicator: false,
                elementary_stream_priority_indicator: false,
                pcr_flag: false,
                opcr_flag: false,
                splicing_point_flag: false,
                transport_private_data_flag: false,
                adaptation_field_extension_flag: false,
                pcr_base: None,
                pcr_extension: None,
                opcr_base: None,
                opcr_extension: None,
                splice_countdown: None,
                transport_private_data: None,
                adaptation_field_extension: None,
                raw,
            },
        );
    }
    if raw.len() < 2 {
        return Err(
            TsError::Truncated { what: "TS adaptation_field flags", have: raw.len(), need: 2 },
        );
    }
    let flags: u8 = raw[1];
    let pcr_flag: bool = flags & 0x10 != 0;
    let opcr_flag: bool = flags & 0x08 != 0;
    let splicing_point_flag: bool = flags & 0x04 != 0;
    let transport_private_data_flag: bool = flags & 0x02 != 0;
    let adaptation_field_extension_flag: bool = flags & 0x01 != 0;
    let mut cursor: usize = 2;
    let mut pcr_base: Option<u64> = None;
    let mut pcr_extension: Option<u16> = None;
    if pcr_flag {
        let (base, ext) = parse_clock_reference(raw, cursor, "TS adaptation_field PCR")?;
        pcr_base = Some(base);
        pcr_extension = Some(ext);
        cursor += 6;
    }
    let mut opcr_base: Option<u64> = None;
    let mut opcr_extension: Option<u16> = None;
    if opcr_flag {
        let (base, ext) = parse_clock_reference(raw, cursor, "TS adaptation_field OPCR")?;
        opcr_base = Some(base);
        opcr_extension = Some(ext);
        cursor += 6;
    }
    let mut splice_countdown: Option<i8> = None;
    if splicing_point_flag {
        if raw.len() - cursor < 1 {
            return Err(
                TsError::Truncated {
                    what: "TS adaptation_field splice_countdown",
                    have: raw.len() - cursor,
                    need: 1,
                },
            );
        }
        splice_countdown = Some(#[verifier::truncate] (raw[cursor] as i8));
        cursor += 1;
    }
    let mut transport_private_data: Option<&'a [u8]> = None;
    if transport_private_data_flag {
        if raw.len() - cursor < 1 {
            return Err(
                TsError::Truncated {
                    what: "TS adaptation_field transport_private_data_length",
                    have: raw.len() - cursor,
                    need: 1,
                },
            );
        }
        let n: usize = raw[cursor] as usize;
        cursor += 1;
        if n > raw.len() - cursor {
            return Err(
                TsError::Truncated {
                    what: "TS adaptation_field private_data",
                    have: raw.len() - cursor,
                    need: n,
                },
            );
        }
        transport_private_data = Some(&raw[cursor..cursor + n]);
        cursor += n;
    }
    let mut adaptation_field_extension: Option<AdaptationFieldExtension> = None;
    if adaptation_field_extension_flag {
        adaptation_field_extension = Some(parse_extension(raw, cursor)?);
    }
    Ok(
        AdaptationField {
            length,
            discontinuity_indicator: flags & 0x80 != 0,
            random_access_indicator: flags & 0x40 != 0,
            elementary_stream_priority_indicator: flags & 0x20 != 0,
            pcr_flag,
            opcr_flag,
            splicing_point_flag,
            transport_private_data_flag,
            adaptation_field_extension_flag,
            pcr_base,
            pcr_extension,
            opcr_base,
            opcr_extension,
            splice_countdown,
            transport_private_data,
            adaptation_field_extension,
            raw,
        },
    )
}

/// Decode the 6-byte clock reference at `raw[cursor..]`.
fn parse_clock_reference(raw: &[u8], cursor: usize, what: &'static str) -> (r: Result<
    (u64, u16),
    TsError,
>)
    requires
        cursor <= raw@.len(),
    ensures
        r == (if cursor + 6 > raw@.len() {
            Err::<(u64, u16), TsError>(crate::error::truncated(what, raw@.len() - cursor, 6))
        } else {
            Ok((clock_base_at(raw@, cursor as int), clock_extension_at(raw@, cursor as int)))
        }),
{
    if raw.len() - cursor < 6 {
        return Err(TsError::Truncated { what, have: raw.len() - cursor, need: 6 });
    }
    let base: u64 = ((raw[cursor] as u64) << 25) | ((raw[cursor + 1] as u64) << 17) | ((raw[cursor
        + 2] as u64) << 9) | ((raw[cursor + 3] as u64) << 1) | (((raw[cursor + 4] >> 7) & 1) as u64);
    let ext: u16 = (((raw[cursor + 4] & 1) as u16) << 8) | (raw[cursor + 5] as u16);
    Ok((base, ext))
}

/// Decode the 5-byte timestamp at `raw[at..]`.
pub(crate) fn read_ts33_at(raw: &[u8], at: usize) -> (r: u64)
    requires
        at + 5 <= raw@.len(),
    ensures
        r == ts33_at(raw@, at as int),
{
    ((((raw[at] >> 1) & 0x07) as u64) << 30) | ((raw[at + 1] as u64) << 22) | ((((raw[at + 2] >> 1)
        & 0x7F) as u64) << 15) | ((raw[at + 3] as u64) << 7) | (((raw[at + 4] >> 1) & 0x7F) as u64)
}

/// Decode the adaptation field extension whose length byte is `raw[at]`.
fn parse_extension(raw: &[u8], at: usize) -> (r: Result<AdaptationFieldExtension, TsError>)
    requires
        at <= raw@.len(),
    ensures
        r == (match extension_error(raw@, at as int) {
            Some(e) => Err::<AdaptationFieldExtension, TsError>(e),
            None => Ok(extension_value(raw@, at as int)),
        }),
{
    if raw.len() - at < 1 {
        return Err(
            TsError::Truncated {
                what: "TS adaptation_field_extension_length",
                have: raw.len() - at,
                need: 1,
            },
        );
    }
    let ext_len: usize = raw[at] as usize;
    let mut cursor: usize = at + 1;
    if ext_len > raw.len() - cursor {
        return Err(
            TsError::Truncated {
                what: "TS adaptation_field_extension body",
                have: raw.len() - cursor,
                need: ext_len,
            },
        );
    }
    if ext_len == 0 {
        return Ok(AdaptationFieldExtension::default());
    }
    let end: usize = cursor + ext_len;
    let flags: u8 = raw[cursor];
    cursor += 1;
    let ltw_flag: bool = flags & 0x80 != 0;
    let piecewise_rate_flag: bool = flags & 0x40 != 0;
    let seamless_splice_flag: bool = flags & 0x20 != 0;
    let mut ltw_valid_flag: Option<bool> = None;
    let mut ltw_offset: Option<u16> = None;
    if ltw_flag {
        if end - cursor < 2 {
            return Err(
                TsError::Truncated { what: "TS adaptation_field ltw", have: end - cursor, need: 2 },
            );
        }
        ltw_valid_flag = Some(raw[cursor] & 0x80 != 0);
        ltw_offset = Some((((raw[cursor] & 0x7F) as u16) << 8) | (raw[cursor + 1] as u16));
        cursor += 2;
    }
    let mut piecewise_rate: Option<u32> = None;
    if piecewise_rate_flag {
        if end - cursor < 3 {
            return Err(
                TsError::Truncated {
                    what: "TS adaptation_field piecewise_rate",
                    have: end - cursor,
                    need: 3,
                },
            );
        }
        piecewise_rate = Some(
            (((raw[cursor] & 0x3F) as u32) << 16) | ((raw[cursor + 1] as u32) << 8) | (raw[cursor
                + 2] as u32),
        );
        cursor += 3;
    }
    let mut splice_type: Option<u8> = None;
    let mut dts_next_au: Option<u64> = None;
    if seamless_splice_flag {
        if end - cursor < 5 {
            return Err(
                TsError::Truncated {
                    what: "TS adaptation_field seamless_splice",
                    have: end - cursor,
                    need: 5,
                },
            );
        }
        splice_type = Some((raw[cursor] >> 4) & 0x0F);
        dts_next_au = Some(read_ts33_at(raw, cursor));
    }
    Ok(
        AdaptationFieldExtension {
            length: raw[at],
            ltw_flag,
            piecewise_rate_flag,
            seamless_splice_flag,
            ltw_valid_flag,
            ltw_offset,
            piecewise_rate,
            splice_type,
            dts_next_au,
        },
    )
}

} // verus!
