//! Writing PES packets.
use vstd::prelude::*;

use crate::bytes::{be16_bytes, push_be16};
use crate::error::TsError;
use crate::packet::encode::{push_ts33, ts33_bytes};
use crate::pes::parse::{
    carries_optional_header, has_optional_pes_header, PesExtension, PesExtensionView,
};
use crate::pes::trick_mode::DsmTrickMode;

verus! {

/// Field values of a PES packet.
#[derive(Debug, Clone)]
pub struct PesHeaderSpec {
    /// `stream_id`. Those without the optional header refuse every field below.
    pub stream_id: u8,
    /// 2-bit `PES_scrambling_control`.
    pub pes_scrambling_control: u8,
    /// `PES_priority`.
    pub pes_priority: bool,
    /// `data_alignment_indicator`.
    pub data_alignment_indicator: bool,
    /// `copyright`.
    pub copyright: bool,
    /// `original_or_copy`.
    pub original_or_copy: bool,
    /// 33-bit PTS (90 kHz).
    pub pts_90k: Option<u64>,
    /// 33-bit DTS (90 kHz); legal only alongside a PTS that it differs from.
    pub dts_90k: Option<u64>,
    /// ESCR in 27 MHz ticks.
    pub escr_27mhz: Option<u64>,
    /// 22-bit `ES_rate` in units of 50 bytes per second; not zero.
    pub es_rate_50bps: Option<u32>,
    /// DSM trick mode.
    pub trick_mode: Option<DsmTrickMode>,
    /// 7-bit `additional_copy_info`.
    pub additional_copy_info: Option<u8>,
    /// 16-bit `previous_PES_packet_CRC`.
    pub previous_pes_packet_crc: Option<u16>,
    /// `PES_extension` body.
    pub pes_extension: Option<PesExtension>,
    /// Write `PES_packet_length` as 0; legal only for video stream ids.
    pub unbounded_length: bool,
}

// ---------------------------------------------------------------------------
// What an encode means
// ---------------------------------------------------------------------------

/// The six bytes of an ESCR field; the two reserved bits are ones.
pub open spec fn escr_bytes(escr: u64) -> Seq<u8> {
    let base = escr / 300;
    let ext = escr % 300;
    seq![
        0xC0u8 | ((((base >> 30) & 7) as u8) << 3) | 4 | (((base >> 28) & 3) as u8),
        ((base >> 20) & 0xFF) as u8,
        ((((base >> 15) & 0x1F) as u8) << 3) | 4 | (((base >> 13) & 3) as u8),
        ((base >> 5) & 0xFF) as u8,
        (((base & 0x1F) as u8) << 3) | 4 | (((ext >> 7) & 3) as u8),
        (((ext & 0x7F) as u8) << 1) | 1,
    ]
}

/// The three bytes of an `ES_rate` field, a marker at either end.
pub open spec fn es_rate_bytes(rate: u32) -> Seq<u8> {
    seq![
        0x80u8 | (((rate >> 15) & 0x7F) as u8),
        ((rate >> 7) & 0xFF) as u8,
        (((rate & 0x7F) as u8) << 1) | 1,
    ]
}

impl PesExtensionView {
    /// Why the extension cannot be encoded.
    pub open spec fn error(self) -> Option<&'static str> {
        if self.program_packet_sequence_counter matches Some(c) && c.counter > 0x7F {
            Some("program_packet_sequence_counter exceeds 7 bits")
        } else if self.program_packet_sequence_counter matches Some(c) && c.original_stuff_length
            > 0x3F {
            Some("original_stuff_length exceeds 6 bits")
        } else if self.p_std_buffer matches Some(p) && p.size > 0x1FFF {
            Some("P-STD_buffer_size exceeds 13 bits")
        } else if self.pack_header matches Some(h) && h.len() > 255 {
            Some("pack_header exceeds pack_field_length")
        } else if self.extension_field_2 matches Some(x) && x.len() > 0x7F {
            Some("PES_extension_field_2 exceeds 7 bits of length")
        } else {
            None
        }
    }

    /// Flags byte; the three reserved bits are ones.
    pub open spec fn flags(self) -> u8 {
        (if self.private_data is Some { 0x80u8 } else { 0 }) | (if self.pack_header is Some {
            0x40u8
        } else {
            0
        }) | (if self.program_packet_sequence_counter is Some { 0x20u8 } else { 0 })
            | (if self.p_std_buffer is Some { 0x10u8 } else { 0 }) | 0x0E
            | (if self.extension_field_2 is Some { 0x01u8 } else { 0 })
    }

    pub open spec fn private_bytes(self) -> Seq<u8> {
        match self.private_data {
            Some(d) => d,
            None => Seq::empty(),
        }
    }

    pub open spec fn pack_bytes(self) -> Seq<u8> {
        match self.pack_header {
            Some(h) => seq![h.len() as u8] + h,
            None => Seq::empty(),
        }
    }

    pub open spec fn counter_bytes(self) -> Seq<u8> {
        match self.program_packet_sequence_counter {
            Some(c) => seq![
                0x80u8 | c.counter,
                0x80u8 | (if c.mpeg1_mpeg2_identifier { 0x40u8 } else { 0 })
                    | c.original_stuff_length,
            ],
            None => Seq::empty(),
        }
    }

    pub open spec fn p_std_bytes(self) -> Seq<u8> {
        match self.p_std_buffer {
            Some(p) => seq![
                0x40u8 | (if p.scale { 0x20u8 } else { 0 }) | (((p.size >> 8) & 0x1F) as u8),
                (p.size & 0xFF) as u8,
            ],
            None => Seq::empty(),
        }
    }

    pub open spec fn field_2_bytes(self) -> Seq<u8> {
        match self.extension_field_2 {
            Some(x) => seq![0x80u8 | (x.len() as u8)] + x,
            None => Seq::empty(),
        }
    }

    /// The wire form.
    pub open spec fn bytes(self) -> Seq<u8> {
        seq![self.flags()] + self.private_bytes() + self.pack_bytes() + self.counter_bytes()
            + self.p_std_bytes() + self.field_2_bytes()
    }
}

impl PesHeaderSpec {
    /// Nothing but the stream id is set.
    pub open spec fn sets_nothing(self) -> bool {
        &&& self.pes_scrambling_control == 0
        &&& !self.pes_priority
        &&& !self.data_alignment_indicator
        &&& !self.copyright
        &&& !self.original_or_copy
        &&& self.pts_90k is None
        &&& self.dts_90k is None
        &&& self.escr_27mhz is None
        &&& self.es_rate_50bps is None
        &&& self.trick_mode is None
        &&& self.additional_copy_info is None
        &&& self.previous_pes_packet_crc is None
        &&& self.pes_extension is None
    }

    /// Why a field value is refused.
    pub open spec fn field_error(self) -> Option<&'static str> {
        if self.pes_scrambling_control > 3 {
            Some("PES_scrambling_control exceeds 2 bits")
        } else if self.pts_90k matches Some(pts) && pts > 0x1_FFFF_FFFF {
            Some("PTS exceeds 33 bits")
        } else if self.dts_90k matches Some(dts) && dts > 0x1_FFFF_FFFF {
            Some("DTS exceeds 33 bits")
        } else if self.dts_90k is Some && self.pts_90k is None {
            Some("DTS without PTS")
        } else if self.dts_90k is Some && self.dts_90k == self.pts_90k {
            Some("DTS equal to PTS shall not be coded")
        } else if self.escr_27mhz matches Some(escr) && escr / 300 > 0x1_FFFF_FFFF {
            Some("ESCR base exceeds 33 bits")
        } else if self.es_rate_50bps matches Some(rate) && rate == 0 {
            Some("ES_rate value 0 is forbidden")
        } else if self.es_rate_50bps matches Some(rate) && rate > 0x3F_FFFF {
            Some("ES_rate exceeds 22 bits")
        } else if self.additional_copy_info matches Some(info) && info > 0x7F {
            Some("additional_copy_info exceeds 7 bits")
        } else if self.pes_extension is Some {
            self.pes_extension->0@.error()
        } else {
            None
        }
    }

    pub open spec fn timestamp_bytes(self) -> Seq<u8> {
        match (self.pts_90k, self.dts_90k) {
            (Some(pts), Some(dts)) => ts33_bytes(3, pts) + ts33_bytes(1, dts),
            (Some(pts), None) => ts33_bytes(2, pts),
            _ => Seq::empty(),
        }
    }

    pub open spec fn escr_field(self) -> Seq<u8> {
        match self.escr_27mhz {
            Some(escr) => escr_bytes(escr),
            None => Seq::empty(),
        }
    }

    pub open spec fn rate_field(self) -> Seq<u8> {
        match self.es_rate_50bps {
            Some(rate) => es_rate_bytes(rate),
            None => Seq::empty(),
        }
    }

    pub open spec fn trick_mode_field(self) -> Seq<u8> {
        match self.trick_mode {
            Some(m) => seq![m.byte()],
            None => Seq::empty(),
        }
    }

    pub open spec fn copy_info_field(self) -> Seq<u8> {
        match self.additional_copy_info {
            Some(info) => seq![0x80u8 | info],
            None => Seq::empty(),
        }
    }

    pub open spec fn crc_field(self) -> Seq<u8> {
        match self.previous_pes_packet_crc {
            Some(crc) => be16_bytes(crc),
            None => Seq::empty(),
        }
    }

    pub open spec fn extension_field(self) -> Seq<u8> {
        match self.pes_extension {
            Some(x) => x@.bytes(),
            None => Seq::empty(),
        }
    }

    /// The optional fields before the extension.
    pub open spec fn plain_fields(self) -> Seq<u8> {
        self.timestamp_bytes() + self.escr_field() + self.rate_field() + self.trick_mode_field()
            + self.copy_info_field() + self.crc_field()
    }

    /// All optional fields.
    pub open spec fn optional_fields(self) -> Seq<u8> {
        self.plain_fields() + self.extension_field()
    }

    /// First flags byte.
    pub open spec fn flags1(self) -> u8 {
        0x80u8 | (self.pes_scrambling_control << 4) | (if self.pes_priority { 0x08u8 } else { 0 })
            | (if self.data_alignment_indicator { 0x04u8 } else { 0 }) | (if self.copyright {
            0x02u8
        } else {
            0
        }) | (if self.original_or_copy { 0x01u8 } else { 0 })
    }

    /// Second flags byte.
    pub open spec fn flags2(self) -> u8 {
        (if self.pts_90k is Some { 0x80u8 } else { 0 }) | (if self.dts_90k is Some {
            0x40u8
        } else {
            0
        }) | (if self.escr_27mhz is Some { 0x20u8 } else { 0 }) | (if self.es_rate_50bps is Some {
            0x10u8
        } else {
            0
        }) | (if self.trick_mode is Some { 0x08u8 } else { 0 })
            | (if self.additional_copy_info is Some { 0x04u8 } else { 0 })
            | (if self.previous_pes_packet_crc is Some { 0x02u8 } else { 0 })
            | (if self.pes_extension is Some { 0x01u8 } else { 0 })
    }

    /// Why `encode` of a payload of `n` bytes is refused.
    pub open spec fn error(self, n: int) -> Option<&'static str> {
        let opt = self.optional_fields().len();
        if !carries_optional_header(self.stream_id) {
            if !self.sets_nothing() {
                Some("optional PES fields on a header-less stream_id")
            } else if self.unbounded_length {
                Some("unbounded PES_packet_length on a non-video stream_id")
            } else if n > 0xFFFF {
                Some("PES payload exceeds PES_packet_length")
            } else {
                None
            }
        } else if self.field_error() is Some {
            self.field_error()
        } else if opt > 255 {
            Some("optional PES header exceeds PES_header_data_length")
        } else if self.unbounded_length && !(0xE0 <= self.stream_id <= 0xEF) {
            Some("unbounded PES_packet_length on a non-video stream_id")
        } else if !self.unbounded_length && 3 + opt + n > 0xFFFF {
            Some("PES packet exceeds PES_packet_length (use unbounded_length)")
        } else {
            None
        }
    }

    /// Start code, stream id and packet length.
    pub open spec fn fixed_header(self, length: u16) -> Seq<u8> {
        seq![
            0u8,
            0u8,
            1u8,
            self.stream_id,
            ((length >> 8) & 0xFF) as u8,
            (length & 0xFF) as u8,
        ]
    }

    /// The complete packet.
    pub open spec fn encoded(self, payload: Seq<u8>) -> Seq<u8> {
        if !carries_optional_header(self.stream_id) {
            self.fixed_header(payload.len() as u16) + payload
        } else {
            let opt = self.optional_fields();
            let length = if self.unbounded_length { 0u16 } else { (3 + opt.len() + payload.len()) as u16
            };
            self.fixed_header(length) + seq![self.flags1(), self.flags2(), opt.len() as u8] + opt
                + payload
        }
    }
}

// ---------------------------------------------------------------------------
// Encoding
// ---------------------------------------------------------------------------

/// Append a 6-byte ESCR field.
fn encode_escr(out: &mut Vec<u8>, escr: u64)
    ensures
        final(out)@ == old(out)@ + escr_bytes(escr),
{
    let base: u64 = escr / 300;
    let ext: u64 = escr % 300;
    out.push(0xC0u8 | ((((base >> 30) & 7) as u8) << 3) | 4 | (((base >> 28) & 3) as u8));
    out.push(((base >> 20) & 0xFF) as u8);
    out.push(((((base >> 15) & 0x1F) as u8) << 3) | 4 | (((base >> 13) & 3) as u8));
    out.push(((base >> 5) & 0xFF) as u8);
    out.push((((base & 0x1F) as u8) << 3) | 4 | (((ext >> 7) & 3) as u8));
    out.push((((ext & 0x7F) as u8) << 1) | 1);
    assert(out@ =~= old(out)@ + escr_bytes(escr));
}

/// The flags byte of a `PES_extension`.
fn pes_extension_flags(ext: &PesExtension) -> (r: u8)
    ensures
        r == ext@.flags(),
{
    (if ext.private_data.is_some() { 0x80u8 } else { 0 }) | (if ext.pack_header.is_some() {
        0x40u8
    } else {
        0
    }) | (if ext.program_packet_sequence_counter.is_some() { 0x20u8 } else { 0 })
        | (if ext.p_std_buffer.is_some() { 0x10u8 } else { 0 }) | 0x0E
        | (if ext.extension_field_2.is_some() { 0x01u8 } else { 0 })
}

/// Append the private data and the pack header.
fn push_private_and_pack(out: &mut Vec<u8>, ext: &PesExtension)
    requires
        ext@.error() is None,
    ensures
        final(out)@ == old(out)@ + ext@.private_bytes() + ext@.pack_bytes(),
{
    if let Some(pd) = &ext.private_data {
        out.extend_from_slice(pd.as_slice());
    }
    let ghost s1 = old(out)@ + ext@.private_bytes();
    assert(out@ =~= s1);
    if let Some(pack) = &ext.pack_header {
        out.push(pack.len() as u8);
        out.extend_from_slice(pack.as_slice());
    }
    assert(out@ =~= s1 + ext@.pack_bytes());
}

/// Append the sequence counter and the P-STD buffer.
fn push_counter_and_p_std(out: &mut Vec<u8>, ext: &PesExtension)
    requires
        ext@.error() is None,
    ensures
        final(out)@ == old(out)@ + ext@.counter_bytes() + ext@.p_std_bytes(),
{
    if let Some(c) = &ext.program_packet_sequence_counter {
        out.push(0x80u8 | c.counter);
        out.push(
            0x80u8 | (if c.mpeg1_mpeg2_identifier { 0x40u8 } else { 0 }) | c.original_stuff_length,
        );
    }
    let ghost s3 = old(out)@ + ext@.counter_bytes();
    assert(out@ =~= s3);
    if let Some(p) = &ext.p_std_buffer {
        out.push(0x40u8 | (if p.scale { 0x20u8 } else { 0 }) | (((p.size >> 8) & 0x1F) as u8));
        out.push((p.size & 0xFF) as u8);
    }
    assert(out@ =~= s3 + ext@.p_std_bytes());
}

/// Append `PES_extension_field_2`.
fn push_field_2(out: &mut Vec<u8>, ext: &PesExtension)
    requires
        ext@.error() is None,
    ensures
        final(out)@ == old(out)@ + ext@.field_2_bytes(),
{
    if let Some(x) = &ext.extension_field_2 {
        out.push(0x80u8 | (x.len() as u8));
        out.extend_from_slice(x.as_slice());
    }
    assert(out@ =~= old(out)@ + ext@.field_2_bytes());
}

/// Encode a `PES_extension` body, refusing values too wide for their fields.
fn encode_pes_extension(ext: &PesExtension) -> (r: Result<Vec<u8>, TsError>)
    ensures
        match ext@.error() {
            Some(what) => r == Err::<Vec<u8>, TsError>(TsError::InvalidField { what }),
            None => r is Ok && r->Ok_0@ == ext@.bytes(),
        },
{
    check_pes_extension(ext)?;
    let mut out: Vec<u8> = Vec::new();
    out.push(pes_extension_flags(ext));
    assert(out@ =~= seq![ext@.flags()]);
    push_private_and_pack(&mut out, ext);
    push_counter_and_p_std(&mut out, ext);
    push_field_2(&mut out, ext);
    Ok(out)
}

fn check_pes_extension(ext: &PesExtension) -> (r: Result<(), TsError>)
    ensures
        r == (match ext@.error() {
            Some(what) => Err::<(), TsError>(TsError::InvalidField { what }),
            None => Ok(()),
        }),
{
    if let Some(c) = &ext.program_packet_sequence_counter {
        if c.counter > 0x7F {
            return Err(
                TsError::InvalidField { what: "program_packet_sequence_counter exceeds 7 bits" },
            );
        }
        if c.original_stuff_length > 0x3F {
            return Err(TsError::InvalidField { what: "original_stuff_length exceeds 6 bits" });
        }
    }
    if let Some(p) = &ext.p_std_buffer {
        if p.size > 0x1FFF {
            return Err(TsError::InvalidField { what: "P-STD_buffer_size exceeds 13 bits" });
        }
    }
    if let Some(pack) = &ext.pack_header {
        if pack.len() > 255 {
            return Err(TsError::InvalidField { what: "pack_header exceeds pack_field_length" });
        }
    }
    if let Some(x) = &ext.extension_field_2 {
        if x.len() > 0x7F {
            return Err(
                TsError::InvalidField { what: "PES_extension_field_2 exceeds 7 bits of length" },
            );
        }
    }
    Ok(())
}

impl Default for PesHeaderSpec {
    fn default() -> (r: Self)
        ensures
            r.stream_id == 0,
            r.sets_nothing(),
            !r.unbounded_length,
    {
        PesHeaderSpec {
            stream_id: 0,
            pes_scrambling_control: 0,
            pes_priority: false,
            data_alignment_indicator: false,
            copyright: false,
            original_or_copy: false,
            pts_90k: None,
            dts_90k: None,
            escr_27mhz: None,
            es_rate_50bps: None,
            trick_mode: None,
            additional_copy_info: None,
            previous_pes_packet_crc: None,
            pes_extension: None,
            unbounded_length: false,
        }
    }
}

impl PesHeaderSpec {
    /// The header with at most timestamps and the unbounded length form set.
    pub open spec fn timestamps_only(
        stream_id: u8,
        pts_90k: Option<u64>,
        dts_90k: Option<u64>,
        unbounded_length: bool,
    ) -> Self {
        PesHeaderSpec {
            stream_id,
            pes_scrambling_control: 0,
            pes_priority: false,
            data_alignment_indicator: false,
            copyright: false,
            original_or_copy: false,
            pts_90k,
            dts_90k,
            escr_27mhz: None,
            es_rate_50bps: None,
            trick_mode: None,
            additional_copy_info: None,
            previous_pes_packet_crc: None,
            pes_extension: None,
            unbounded_length,
        }
    }

    /// A header with just a PTS and perhaps a DTS.
    pub fn with_timestamps(stream_id: u8, pts_90k: u64, dts_90k: Option<u64>) -> (r: Self)
        ensures
            r == Self::timestamps_only(stream_id, Some(pts_90k), dts_90k, false),
    {
        let mut spec: PesHeaderSpec = PesHeaderSpec::default();
        spec.stream_id = stream_id;
        spec.pts_90k = Some(pts_90k);
        spec.dts_90k = dts_90k;
        spec
    }

    fn is_bare(&self) -> (r: bool)
        ensures
            r == self.sets_nothing(),
    {
        self.pes_scrambling_control == 0 && !self.pes_priority && !self.data_alignment_indicator
            && !self.copyright && !self.original_or_copy && self.pts_90k.is_none()
            && self.dts_90k.is_none() && self.escr_27mhz.is_none() && self.es_rate_50bps.is_none()
            && self.trick_mode.is_none() && self.additional_copy_info.is_none()
            && self.previous_pes_packet_crc.is_none() && self.pes_extension.is_none()
    }

    /// Refuse field values, those of the extension aside.
    fn check(&self) -> (r: Result<(), TsError>)
        ensures
            match r {
                Ok(()) => self.field_error() == (match self.pes_extension {
                    Some(x) => x@.error(),
                    None => None,
                }),
                Err(e) => self.field_error() is Some && e == (TsError::InvalidField {
                    what: self.field_error()->0,
                }),
            },
            r is Ok && self.dts_90k is Some ==> self.pts_90k is Some,
    {
        if self.pes_scrambling_control > 3 {
            return Err(TsError::InvalidField { what: "PES_scrambling_control exceeds 2 bits" });
        }
        if let Some(pts) = self.pts_90k {
            if pts > 0x1_FFFF_FFFF {
                return Err(TsError::InvalidField { what: "PTS exceeds 33 bits" });
            }
        }
        if let Some(dts) = self.dts_90k {
            if dts > 0x1_FFFF_FFFF {
                return Err(TsError::InvalidField { what: "DTS exceeds 33 bits" });
            }
            match self.pts_90k {
                None => {
                    return Err(TsError::InvalidField { what: "DTS without PTS" });
                },
                Some(pts) => {
                    if pts == dts {
                        return Err(
                            TsError::InvalidField { what: "DTS equal to PTS shall not be coded" },
                        );
                    }
                },
            }
        }
        if let Some(escr) = self.escr_27mhz {
            if escr / 300 > 0x1_FFFF_FFFF {
                return Err(TsError::InvalidField { what: "ESCR base exceeds 33 bits" });
            }
        }
        if let Some(rate) = self.es_rate_50bps {
            if rate == 0 {
                return Err(TsError::InvalidField { what: "ES_rate value 0 is forbidden" });
            }
            if rate > 0x3F_FFFF {
                return Err(TsError::InvalidField { what: "ES_rate exceeds 22 bits" });
            }
        }
        if let Some(info) = self.additional_copy_info {
            if info > 0x7F {
                return Err(TsError::InvalidField { what: "additional_copy_info exceeds 7 bits" });
            }
        }
        Ok(())
    }

    fn push_timestamps(&self, out: &mut Vec<u8>)
        requires
            self.dts_90k is Some ==> self.pts_90k is Some,
        ensures
            final(out)@ == old(out)@ + self.timestamp_bytes(),
    {
        if let Some(pts) = self.pts_90k {
            match self.dts_90k {
                Some(dts) => {
                    push_ts33(out, 3, pts);
                    push_ts33(out, 1, dts);
                },
                None => {
                    push_ts33(out, 2, pts);
                },
            }
        }
        assert(out@ =~= old(out)@ + self.timestamp_bytes());
    }

    fn push_escr(&self, out: &mut Vec<u8>)
        ensures
            final(out)@ == old(out)@ + self.escr_field(),
    {
        if let Some(escr) = self.escr_27mhz {
            encode_escr(out, escr);
        }
        assert(out@ =~= old(out)@ + self.escr_field());
    }

    fn push_rate(&self, out: &mut Vec<u8>)
        ensures
            final(out)@ == old(out)@ + self.rate_field(),
    {
        if let Some(rate) = self.es_rate_50bps {
            out.push(0x80u8 | (((rate >> 15) & 0x7F) as u8));
            out.push(((rate >> 7) & 0xFF) as u8);
            out.push((((rate & 0x7F) as u8) << 1) | 1);
        }
        assert(out@ =~= old(out)@ + self.rate_field());
    }

    fn push_trick_mode(&self, out: &mut Vec<u8>)
        ensures
            final(out)@ == old(out)@ + self.trick_mode_field(),
    {
        if let Some(m) = self.trick_mode {
            out.push(m.to_byte());
        }
        assert(out@ =~= old(out)@ + self.trick_mode_field());
    }

    fn push_copy_info(&self, out: &mut Vec<u8>)
        ensures
            final(out)@ == old(out)@ + self.copy_info_field(),
    {
        if let Some(info) = self.additional_copy_info {
            out.push(0x80u8 | info);
        }
        assert(out@ =~= old(out)@ + self.copy_info_field());
    }

    fn push_crc(&self, out: &mut Vec<u8>)
        ensures
            final(out)@ == old(out)@ + self.crc_field(),
    {
        if let Some(crc) = self.previous_pes_packet_crc {
            push_be16(out, crc);
        }
        assert(out@ =~= old(out)@ + self.crc_field());
    }

    /// The optional fields.
    fn encode_optional_fields(&self) -> (r: Result<Vec<u8>, TsError>)
        requires
            self.dts_90k is Some ==> self.pts_90k is Some,
        ensures
            match self.pes_extension {
                Some(x) => match x@.error() {
                    Some(what) => r == Err::<Vec<u8>, TsError>(TsError::InvalidField { what }),
                    None => r is Ok && r->Ok_0@ == self.optional_fields(),
                },
                None => r is Ok && r->Ok_0@ == self.optional_fields(),
            },
    {
        let mut opt: Vec<u8> = Vec::new();
        self.push_timestamps(&mut opt);
        assert(opt@ =~= self.timestamp_bytes());
        self.push_escr(&mut opt);
        self.push_rate(&mut opt);
        self.push_trick_mode(&mut opt);
        self.push_copy_info(&mut opt);
        self.push_crc(&mut opt);
        assert(opt@ == self.plain_fields());
        match &self.pes_extension {
            Some(ext) => {
                let body: Vec<u8> = encode_pes_extension(ext)?;
                opt.extend_from_slice(body.as_slice());
                assert(opt@ == self.optional_fields());
            },
            None => {
                assert(opt@ =~= self.optional_fields());
            },
        }
        Ok(opt)
    }

    /// A packet with the optional header, from its parts.
    fn assemble(&self, length: u16, opt: &Vec<u8>, payload: &[u8]) -> (r: Vec<u8>)
        requires
            opt@.len() <= 255,
        ensures
            r@ == self.fixed_header(length) + seq![self.flags1(), self.flags2(), opt@.len() as u8]
                + opt@ + payload@,
    {
        let flags1: u8 = 0x80u8 | (self.pes_scrambling_control << 4) | (if self.pes_priority {
            0x08u8
        } else {
            0
        }) | (if self.data_alignment_indicator { 0x04u8 } else { 0 }) | (if self.copyright {
            0x02u8
        } else {
            0
        }) | (if self.original_or_copy { 0x01u8 } else { 0 });
        let flags2: u8 = (if self.pts_90k.is_some() { 0x80u8 } else { 0 })
            | (if self.dts_90k.is_some() { 0x40u8 } else { 0 })
            | (if self.escr_27mhz.is_some() { 0x20u8 } else { 0 })
            | (if self.es_rate_50bps.is_some() { 0x10u8 } else { 0 })
            | (if self.trick_mode.is_some() { 0x08u8 } else { 0 })
            | (if self.additional_copy_info.is_some() { 0x04u8 } else { 0 })
            | (if self.previous_pes_packet_crc.is_some() { 0x02u8 } else { 0 })
            | (if self.pes_extension.is_some() { 0x01u8 } else { 0 });
        let mut out: Vec<u8> = self.encode_fixed_header(length);
        out.push(flags1);
        out.push(flags2);
        out.push(opt.len() as u8);
        assert(out@ =~= self.fixed_header(length) + seq![flags1, flags2, opt@.len() as u8]);
        out.extend_from_slice(opt.as_slice());
        out.extend_from_slice(payload);
        out
    }

    /// Start code, stream id and packet length.
    fn encode_fixed_header(&self, length: u16) -> (r: Vec<u8>)
        ensures
            r@ == self.fixed_header(length),
    {
        let mut out: Vec<u8> = Vec::new();
        out.push(0);
        out.push(0);
        out.push(1);
        out.push(self.stream_id);
        out.push(((length >> 8) & 0xFF) as u8);
        out.push((length & 0xFF) as u8);
        assert(out@ =~= self.fixed_header(length));
        out
    }

    /// Encode a complete PES packet around `payload`.
    ///
    /// [`TsError::InvalidField`] is returned for a value too wide for its field,
    /// a DTS without a PTS or equal to it, a zero `ES_rate`, fields on a stream
    /// id without the optional header, optional fields over 255 bytes, the
    /// unbounded form on a stream id that is not video, and a bounded packet too
    /// long for its 16-bit length.
    pub fn encode(&self, payload: &[u8]) -> (r: Result<Vec<u8>, TsError>)
        ensures
            match self.error(payload@.len() as int) {
                Some(what) => r == Err::<Vec<u8>, TsError>(TsError::InvalidField { what }),
                None => r is Ok && r->Ok_0@ == self.encoded(payload@),
            },
    {
        if !has_optional_pes_header(self.stream_id) {
            if !self.is_bare() {
                return Err(
                    TsError::InvalidField { what: "optional PES fields on a header-less stream_id" },
                );
            }
            if self.unbounded_length {
                return Err(
                    TsError::InvalidField {
                        what: "unbounded PES_packet_length on a non-video stream_id",
                    },
                );
            }
            if payload.len() > 0xFFFF {
                return Err(
                    TsError::InvalidField { what: "PES payload exceeds PES_packet_length" },
                );
            }
            let mut out: Vec<u8> = self.encode_fixed_header(payload.len() as u16);
            out.extend_from_slice(payload);
            assert(out@ =~= self.encoded(payload@));
            return Ok(out);
        }
        self.check()?;
        let opt: Vec<u8> = self.encode_optional_fields()?;
        if opt.len() > 255 {
            return Err(
                TsError::InvalidField { what: "optional PES header exceeds PES_header_data_length" },
            );
        }
        let mut length: u16 = 0;
        if self.unbounded_length {
            if self.stream_id < 0xE0 || self.stream_id > 0xEF {
                return Err(
                    TsError::InvalidField {
                        what: "unbounded PES_packet_length on a non-video stream_id",
                    },
                );
            }
        } else {
            if payload.len() > 0xFFFF - 3 - opt.len() {
                return Err(
                    TsError::InvalidField {
                        what: "PES packet exceeds PES_packet_length (use unbounded_length)",
                    },
                );
            }
            length = (3 + opt.len() + payload.len()) as u16;
        }
        Ok(self.assemble(length, &opt, payload))
    }
}

} // verus!
