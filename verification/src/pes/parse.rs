//! Reading PES packets.
//!
//! ```text
//! packet_start_code_prefix (24, 00 00 01) | stream_id (8) | PES_packet_length (16)
//! '10' | PES_scrambling_control (2) | PES_priority | data_alignment_indicator |
//! copyright | original_or_copy |
//! PTS_DTS_flags (2) | ESCR_flag | ES_rate_flag | DSM_trick_mode_flag |
//! additional_copy_info_flag | PES_CRC_flag | PES_extension_flag |
//! PES_header_data_length (8) | optional fields in flag order | stuffing | payload
//! ```
use vstd::prelude::*;
use vstd::slice::slice_to_vec;

use crate::bytes::be16_at;
use crate::error::{truncated, TsError};
use crate::packet::parse::{read_ts33_at, ts33_at};
use crate::pes::trick_mode::DsmTrickMode;

verus! {

/// One complete PES packet.
#[derive(Debug, Clone)]
pub struct PesPacket {
    /// `stream_id`.
    pub stream_id: u8,
    /// 2-bit `PES_scrambling_control`.
    pub pes_scrambling_control: u8,
    /// `PES_priority`.
    pub pes_priority: bool,
    /// `data_alignment_indicator`.
    pub data_alignment_indicator: bool,
    /// `copyright`.
    pub copyright: bool,
    /// `original_or_copy`: `true` for an original.
    pub original_or_copy: bool,
    /// 33-bit presentation time stamp (90 kHz).
    pub pts_90k: Option<u64>,
    /// 33-bit decoding time stamp (90 kHz).
    pub dts_90k: Option<u64>,
    /// Elementary stream clock reference in 27 MHz ticks: base * 300 + extension.
    pub escr_27mhz: Option<u64>,
    /// 22-bit `ES_rate`, in units of 50 bytes per second.
    pub es_rate_50bps: Option<u32>,
    /// Raw `DSM_trick_mode` byte.
    pub dsm_trick_mode: Option<u8>,
    /// 7-bit `additional_copy_info`.
    pub additional_copy_info: Option<u8>,
    /// 16-bit `previous_PES_packet_CRC`.
    pub previous_pes_packet_crc: Option<u16>,
    /// Decoded `PES_extension` body.
    pub pes_extension: Option<PesExtension>,
    /// A transport-level `random_access_indicator` announced this packet. Set by
    /// the reassembler; always `false` from a bare parse.
    pub random_access: bool,
    /// Elementary-stream bytes after the header.
    pub payload: Vec<u8>,
}

/// Decoded `PES_extension` body.
#[derive(Debug, Clone, PartialEq, Eq)]
pub struct PesExtension {
    /// 16-byte `PES_private_data`.
    pub private_data: Option<[u8; 16]>,
    /// Raw `pack_header()` bytes.
    pub pack_header: Option<Vec<u8>>,
    /// `program_packet_sequence_counter` group.
    pub program_packet_sequence_counter: Option<ProgramPacketSequenceCounter>,
    /// `P-STD_buffer_scale` and `P-STD_buffer_size`.
    pub p_std_buffer: Option<PStdBuffer>,
    /// Raw bytes of the `PES_extension_flag_2` field.
    pub extension_field_2: Option<Vec<u8>>,
}

/// `program_packet_sequence_counter` group.
#[derive(Debug, Clone, Copy, PartialEq, Eq)]
pub struct ProgramPacketSequenceCounter {
    /// 7-bit counter.
    pub counter: u8,
    /// `MPEG1_MPEG2_identifier`.
    pub mpeg1_mpeg2_identifier: bool,
    /// 6-bit `original_stuff_length`.
    pub original_stuff_length: u8,
}

/// `P-STD_buffer_scale` and `P-STD_buffer_size`.
#[derive(Debug, Clone, Copy, PartialEq, Eq)]
pub struct PStdBuffer {
    /// Unit of `size`: 1024 bytes when set, 128 when clear.
    pub scale: bool,
    /// 13-bit size.
    pub size: u16,
}

impl PStdBuffer {
    /// Buffer size in bytes.
    pub fn size_bytes(&self) -> (r: u32)
        ensures
            r == self.size * (if self.scale { 1024int } else { 128 }),
    {
        if self.scale {
            self.size as u32 * 1024
        } else {
            self.size as u32 * 128
        }
    }
}

impl Default for PesExtension {
    fn default() -> (r: Self)
        ensures
            r@ == PesExtensionView::none(),
    {
        PesExtension {
            private_data: None,
            pack_header: None,
            program_packet_sequence_counter: None,
            p_std_buffer: None,
            extension_field_2: None,
        }
    }
}

// ---------------------------------------------------------------------------
// What a parse means
// ---------------------------------------------------------------------------

/// Abstract value of a [`PesExtension`].
pub struct PesExtensionView {
    pub private_data: Option<Seq<u8>>,
    pub pack_header: Option<Seq<u8>>,
    pub program_packet_sequence_counter: Option<ProgramPacketSequenceCounter>,
    pub p_std_buffer: Option<PStdBuffer>,
    pub extension_field_2: Option<Seq<u8>>,
}

impl PesExtensionView {
    pub open spec fn none() -> Self {
        PesExtensionView {
            private_data: None,
            pack_header: None,
            program_packet_sequence_counter: None,
            p_std_buffer: None,
            extension_field_2: None,
        }
    }
}

/// The bytes of an optional vector.
pub open spec fn opt_bytes(v: Option<Vec<u8>>) -> Option<Seq<u8>> {
    match v {
        Some(d) => Some(d@),
        None => None,
    }
}

impl View for PesExtension {
    type V = PesExtensionView;

    open spec fn view(&self) -> PesExtensionView {
        PesExtensionView {
            private_data: match self.private_data {
                Some(d) => Some(d@),
                None => None,
            },
            pack_header: opt_bytes(self.pack_header),
            program_packet_sequence_counter: self.program_packet_sequence_counter,
            p_std_buffer: self.p_std_buffer,
            extension_field_2: opt_bytes(self.extension_field_2),
        }
    }
}

/// Abstract value of a [`PesPacket`].
pub struct PesPacketView {
    pub stream_id: u8,
    pub pes_scrambling_control: u8,
    pub pes_priority: bool,
    pub data_alignment_indicator: bool,
    pub copyright: bool,
    pub original_or_copy: bool,
    pub pts_90k: Option<u64>,
    pub dts_90k: Option<u64>,
    pub escr_27mhz: Option<u64>,
    pub es_rate_50bps: Option<u32>,
    pub dsm_trick_mode: Option<u8>,
    pub additional_copy_info: Option<u8>,
    pub previous_pes_packet_crc: Option<u16>,
    pub pes_extension: Option<PesExtensionView>,
    pub random_access: bool,
    pub payload: Seq<u8>,
}

impl View for PesPacket {
    type V = PesPacketView;

    open spec fn view(&self) -> PesPacketView {
        PesPacketView {
            stream_id: self.stream_id,
            pes_scrambling_control: self.pes_scrambling_control,
            pes_priority: self.pes_priority,
            data_alignment_indicator: self.data_alignment_indicator,
            copyright: self.copyright,
            original_or_copy: self.original_or_copy,
            pts_90k: self.pts_90k,
            dts_90k: self.dts_90k,
            escr_27mhz: self.escr_27mhz,
            es_rate_50bps: self.es_rate_50bps,
            dsm_trick_mode: self.dsm_trick_mode,
            additional_copy_info: self.additional_copy_info,
            previous_pes_packet_crc: self.previous_pes_packet_crc,
            pes_extension: match self.pes_extension {
                Some(e) => Some(e@),
                None => None,
            },
            random_access: self.random_access,
            payload: self.payload@,
        }
    }
}

/// Whether packets of `stream_id` carry the optional header.
pub open spec fn carries_optional_header(stream_id: u8) -> bool {
    !(stream_id == 0xBC || stream_id == 0xBE || stream_id == 0xBF || stream_id == 0xF0 || stream_id
        == 0xF1 || stream_id == 0xFF || stream_id == 0xF2 || stream_id == 0xF8)
}

/// Where each optional field stands within the optional-field area, by the
/// second flags byte `f`.
pub open spec fn escr_at(f: u8) -> int {
    if (f >> 6) & 3 == 2 {
        5
    } else if (f >> 6) & 3 == 3 {
        10
    } else {
        0
    }
}

pub open spec fn es_rate_at(f: u8) -> int {
    escr_at(f) + if f & 0x20 != 0 { 6int } else { 0 }
}

pub open spec fn trick_mode_at(f: u8) -> int {
    es_rate_at(f) + if f & 0x10 != 0 { 3int } else { 0 }
}

pub open spec fn copy_info_at(f: u8) -> int {
    trick_mode_at(f) + if f & 0x08 != 0 { 1int } else { 0 }
}

pub open spec fn crc_at(f: u8) -> int {
    copy_info_at(f) + if f & 0x04 != 0 { 1int } else { 0 }
}

pub open spec fn pes_extension_at(f: u8) -> int {
    crc_at(f) + if f & 0x02 != 0 { 2int } else { 0 }
}

/// ESCR in 27 MHz ticks of the 6-byte field at `o[at]`.
pub open spec fn escr_value(o: Seq<u8>, at: int) -> u64 {
    (escr_base(o[at], o[at + 1], o[at + 2], o[at + 3], o[at + 4]) * 300 + escr_extension(
        o[at + 4],
        o[at + 5],
    )) as u64
}

/// 33-bit base: 3 bits, 15 bits and 15 bits, a marker after each group.
pub open spec fn escr_base(b0: u8, b1: u8, b2: u8, b3: u8, b4: u8) -> u64 {
    ((((b0 >> 3) & 7) as u64) << 30) | (((b0 & 3) as u64) << 28) | ((b1 as u64) << 20) | ((((b2
        >> 3) & 0x1F) as u64) << 15) | (((b2 & 3) as u64) << 13) | ((b3 as u64) << 5) | (((b4 >> 3)
        & 0x1F) as u64)
}

/// 9-bit extension.
pub open spec fn escr_extension(b4: u8, b5: u8) -> u64 {
    (((b4 & 3) as u64) << 7) | (((b5 >> 1) & 0x7F) as u64)
}

/// 22-bit rate of the 3-byte field at `o[at]`.
pub open spec fn es_rate_value(o: Seq<u8>, at: int) -> u32 {
    (((o[at] & 0x7F) as u32) << 15) | ((o[at + 1] as u32) << 7) | (((o[at + 2] >> 1) & 0x7F) as u32)
}

/// Where each part of a `PES_extension` body `e` stands.
pub open spec fn pack_at(e: Seq<u8>) -> int {
    if e[0] & 0x80 != 0 { 17 } else { 1 }
}

pub open spec fn counter_at(e: Seq<u8>) -> int {
    pack_at(e) + if e[0] & 0x40 != 0 { 1 + e[pack_at(e)] as int } else { 0 }
}

pub open spec fn p_std_at(e: Seq<u8>) -> int {
    counter_at(e) + if e[0] & 0x20 != 0 { 2int } else { 0 }
}

pub open spec fn field_2_at(e: Seq<u8>) -> int {
    p_std_at(e) + if e[0] & 0x10 != 0 { 2int } else { 0 }
}

/// Where a `PES_extension` body `e` ends: after its last part.
pub open spec fn pes_extension_end(e: Seq<u8>) -> int {
    field_2_at(e) + if e[0] & 0x01 != 0 { 1 + (e[field_2_at(e)] & 0x7F) as int } else { 0 }
}

/// The first part of `PES_extension` body `e` that does not fit, if any.
pub open spec fn pes_extension_error(e: Seq<u8>) -> Option<TsError> {
    let n = e.len() as int;
    if n == 0 {
        Some(truncated("PES extension flags", 0, 1))
    } else if e[0] & 0x80 != 0 && n < 17 {
        Some(truncated("PES_private_data", n, 17))
    } else if e[0] & 0x40 != 0 && n < pack_at(e) + 1 {
        Some(truncated("pack_field_length", n, pack_at(e) + 1))
    } else if e[0] & 0x40 != 0 && n < counter_at(e) {
        Some(truncated("pack_header", n, counter_at(e)))
    } else if e[0] & 0x20 != 0 && n < counter_at(e) + 2 {
        Some(truncated("program_packet_sequence_counter", n, counter_at(e) + 2))
    } else if e[0] & 0x10 != 0 && n < p_std_at(e) + 2 {
        Some(truncated("P-STD_buffer", n, p_std_at(e) + 2))
    } else if e[0] & 0x01 != 0 && n < field_2_at(e) + 1 {
        Some(truncated("PES_extension_field_length", n, field_2_at(e) + 1))
    } else if e[0] & 0x01 != 0 && n < field_2_at(e) + 1 + (e[field_2_at(e)] & 0x7F) {
        Some(truncated("PES_extension_field", n, field_2_at(e) + 1 + (e[field_2_at(e)] & 0x7F)))
    } else {
        None
    }
}

/// The parts of `PES_extension` body `e`, when all of them fit.
pub open spec fn pes_extension_value(e: Seq<u8>) -> PesExtensionView {
    let c = counter_at(e);
    let p = p_std_at(e);
    let x = field_2_at(e);
    PesExtensionView {
        private_data: if e[0] & 0x80 != 0 { Some(e.subrange(1, 17)) } else { None },
        pack_header: if e[0] & 0x40 != 0 { Some(e.subrange(pack_at(e) + 1, c)) } else { None },
        program_packet_sequence_counter: if e[0] & 0x20 != 0 {
            Some(
                ProgramPacketSequenceCounter {
                    counter: e[c] & 0x7F,
                    mpeg1_mpeg2_identifier: e[c + 1] & 0x40 != 0,
                    original_stuff_length: e[c + 1] & 0x3F,
                },
            )
        } else {
            None
        },
        p_std_buffer: if e[0] & 0x10 != 0 {
            Some(
                PStdBuffer {
                    scale: e[p] & 0x20 != 0,
                    size: (((e[p] & 0x1F) as u16) << 8) | (e[p + 1] as u16),
                },
            )
        } else {
            None
        },
        extension_field_2: if e[0] & 0x01 != 0 {
            Some(e.subrange(x + 1, x + 1 + (e[x] & 0x7F)))
        } else {
            None
        },
    }
}

/// The first optional field that does not fit the optional-field area `o`
/// announced by flags byte `f`, if any.
pub open spec fn optional_fields_error(f: u8, o: Seq<u8>) -> Option<TsError> {
    let n = o.len() as int;
    if (f >> 6) & 3 == 2 && n < 5 {
        Some(truncated("PES PTS", n, 5))
    } else if (f >> 6) & 3 == 3 && n < 10 {
        Some(truncated("PES PTS+DTS", n, 10))
    } else if (f >> 6) & 3 == 1 {
        Some(TsError::Unsupported("PES PTS_DTS_flags = 0b01"))
    } else if f & 0x20 != 0 && n < escr_at(f) + 6 {
        Some(truncated("PES ESCR", n, escr_at(f) + 6))
    } else if f & 0x10 != 0 && n < es_rate_at(f) + 3 {
        Some(truncated("PES ES_rate", n, es_rate_at(f) + 3))
    } else if f & 0x08 != 0 && n < trick_mode_at(f) + 1 {
        Some(truncated("PES DSM_trick_mode", n, trick_mode_at(f) + 1))
    } else if f & 0x04 != 0 && n < copy_info_at(f) + 1 {
        Some(truncated("PES additional_copy_info", n, copy_info_at(f) + 1))
    } else if f & 0x02 != 0 && n < crc_at(f) + 2 {
        Some(truncated("PES previous_PES_packet_CRC", n, crc_at(f) + 2))
    } else if f & 0x01 != 0 {
        pes_extension_error(o.subrange(pes_extension_at(f), n))
    } else {
        None
    }
}

/// Why the bytes `b` are not a PES packet, if they are not.
pub open spec fn pes_error(b: Seq<u8>) -> Option<TsError> {
    let n = b.len() as int;
    if n < 6 {
        Some(truncated("PES header", n, 6))
    } else if b[0] != 0 || b[1] != 0 || b[2] != 1 {
        Some(TsError::BadPesStartCode([b[0], b[1], b[2]]))
    } else if !carries_optional_header(b[3]) {
        None
    } else if n < 9 {
        Some(truncated("PES optional header", n, 9))
    } else if n < 9 + b[8] {
        Some(truncated("PES optional header body", n, 9 + b[8]))
    } else {
        optional_fields_error(b[7], b.subrange(9, 9 + b[8]))
    }
}

/// The PES packet with no optional field.
pub open spec fn bare_pes(stream_id: u8, payload: Seq<u8>) -> PesPacketView {
    PesPacketView {
        stream_id,
        pes_scrambling_control: 0,
        pes_priority: false,
        data_alignment_indicator: false,
        copyright: false,
        original_or_copy: false,
        pts_90k: None,
        dts_90k: None,
        escr_27mhz: None,
        es_rate_50bps: None,
        dsm_trick_mode: None,
        additional_copy_info: None,
        previous_pes_packet_crc: None,
        pes_extension: None,
        random_access: false,
        payload,
    }
}

/// What PES packet `b` decodes to, when it has no error.
pub open spec fn pes_value(b: Seq<u8>) -> PesPacketView {
    if !carries_optional_header(b[3]) {
        bare_pes(b[3], b.subrange(6, b.len() as int))
    } else {
        let f = b[7];
        let end = 9 + b[8];
        let o = b.subrange(9, end);
        PesPacketView {
            stream_id: b[3],
            pes_scrambling_control: (b[6] >> 4) & 3,
            pes_priority: b[6] & 0x08 != 0,
            data_alignment_indicator: b[6] & 0x04 != 0,
            copyright: b[6] & 0x02 != 0,
            original_or_copy: b[6] & 0x01 != 0,
            pts_90k: if (f >> 6) & 3 == 2 || (f >> 6) & 3 == 3 { Some(ts33_at(o, 0)) } else { None },
            dts_90k: if (f >> 6) & 3 == 3 { Some(ts33_at(o, 5)) } else { None },
            escr_27mhz: if f & 0x20 != 0 { Some(escr_value(o, escr_at(f))) } else { None },
            es_rate_50bps: if f & 0x10 != 0 { Some(es_rate_value(o, es_rate_at(f))) } else { None },
            dsm_trick_mode: if f & 0x08 != 0 { Some(o[trick_mode_at(f)]) } else { None },
            additional_copy_info: if f & 0x04 != 0 { Some(o[copy_info_at(f)] & 0x7F) } else { None },
            previous_pes_packet_crc: if f & 0x02 != 0 { Some(be16_at(o, crc_at(f))) } else { None },
            pes_extension: if f & 0x01 != 0 {
                Some(pes_extension_value(o.subrange(pes_extension_at(f), o.len() as int)))
            } else {
                None
            },
            random_access: false,
            payload: b.subrange(end, b.len() as int),
        }
    }
}

/// What the bytes `b` decode to as one PES packet.
pub open spec fn parse_pes_spec(b: Seq<u8>) -> Result<PesPacketView, TsError> {
    match pes_error(b) {
        Some(e) => Err(e),
        None => Ok(pes_value(b)),
    }
}

// ---------------------------------------------------------------------------
// Parsing
// ---------------------------------------------------------------------------

/// Whether packets of `stream_id` carry the optional header: all but
/// program_stream_map, padding_stream, private_stream_2, ECM, EMM,
/// program_stream_directory, DSM-CC and H.222.1 type E.
pub fn has_optional_pes_header(stream_id: u8) -> (r: bool)
    ensures
        r == carries_optional_header(stream_id),
{
    !(stream_id == 0xBC || stream_id == 0xBE || stream_id == 0xBF || stream_id == 0xF0 || stream_id
        == 0xF1 || stream_id == 0xFF || stream_id == 0xF2 || stream_id == 0xF8)
}

/// Decode a 5-byte PTS or DTS field. The 4-bit prefix and the marker bits are
/// not looked at.
pub fn decode_timestamp(b: &[u8]) -> (r: Result<u64, TsError>)
    ensures
        r == (if b@.len() < 5 {
            Err::<u64, TsError>(truncated("PTS/DTS", b@.len() as int, 5))
        } else {
            Ok(ts33_at(b@, 0))
        }),
{
    if b.len() < 5 {
        return Err(TsError::Truncated { what: "PTS/DTS", have: b.len(), need: 5 });
    }
    Ok(read_ts33_at(b, 0))
}

/// Decode a 6-byte ESCR field to 27 MHz ticks. Reserved and marker bits are not
/// looked at.
pub fn decode_escr(b: &[u8]) -> (r: Result<u64, TsError>)
    ensures
        r == (if b@.len() < 6 {
            Err::<u64, TsError>(truncated("ESCR", b@.len() as int, 6))
        } else {
            Ok(escr_value(b@, 0))
        }),
{
    if b.len() < 6 {
        return Err(TsError::Truncated { what: "ESCR", have: b.len(), need: 6 });
    }
    Ok(read_escr_at(b, 0))
}

/// Decode the 6-byte ESCR field at `o[at..]`.
fn read_escr_at(o: &[u8], at: usize) -> (r: u64)
    requires
        at + 6 <= o@.len(),
    ensures
        r == escr_value(o@, at as int),
{
    let b0: u8 = o[at];
    let b1: u8 = o[at + 1];
    let b2: u8 = o[at + 2];
    let b3: u8 = o[at + 3];
    let b4: u8 = o[at + 4];
    let b5: u8 = o[at + 5];
    let base: u64 = ((((b0 >> 3) & 7) as u64) << 30) | (((b0 & 3) as u64) << 28) | ((b1 as u64)
        << 20) | ((((b2 >> 3) & 0x1F) as u64) << 15) | (((b2 & 3) as u64) << 13) | ((b3 as u64) << 5)
        | (((b4 >> 3) & 0x1F) as u64);
    let ext: u64 = (((b4 & 3) as u64) << 7) | (((b5 >> 1) & 0x7F) as u64);
    proof {
        lemma_escr_bounds(b0, b1, b2, b3, b4, b5);
    }
    base * 300 + ext
}

/// The base of an ESCR has 33 bits, its extension nine.
pub proof fn lemma_escr_bounds(b0: u8, b1: u8, b2: u8, b3: u8, b4: u8, b5: u8)
    by (bit_vector)
    ensures
        (((((b0 >> 3) & 7) as u64) << 30) | (((b0 & 3) as u64) << 28) | ((b1 as u64) << 20) | ((((b2
            >> 3) & 0x1F) as u64) << 15) | (((b2 & 3) as u64) << 13) | ((b3 as u64) << 5) | (((b4
            >> 3) & 0x1F) as u64)) <= 0x1_FFFF_FFFF,
        ((((b4 & 3) as u64) << 7) | (((b5 >> 1) & 0x7F) as u64)) <= 0x1FF,
{
}

impl PesExtension {
    /// Parse a `PES_extension` body from the head of `b`. Returns it with the
    /// number of bytes it occupies.
    pub fn parse(b: &[u8]) -> (r: Result<(Self, usize), TsError>)
        ensures
            match r {
                Ok((x, used)) => pes_extension_error(b@) is None && x@ == pes_extension_value(b@)
                    && used == pes_extension_end(b@) && used <= b@.len(),
                Err(e) => pes_extension_error(b@) == Some(e),
            },
    {
        if b.len() == 0 {
            return Err(TsError::Truncated { what: "PES extension flags", have: 0, need: 1 });
        }
        let flags: u8 = b[0];
        let mut cursor: usize = 1;
        let mut private_data: Option<[u8; 16]> = None;
        if flags & 0x80 != 0 {
            if b.len() < 17 {
                return Err(
                    TsError::Truncated { what: "PES_private_data", have: b.len(), need: 17 },
                );
            }
            let pd: [u8; 16] = [
                b[1],
                b[2],
                b[3],
                b[4],
                b[5],
                b[6],
                b[7],
                b[8],
                b[9],
                b[10],
                b[11],
                b[12],
                b[13],
                b[14],
                b[15],
                b[16],
            ];
            assert(pd@ =~= b@.subrange(1, 17));
            private_data = Some(pd);
            cursor = 17;
        }
        let mut pack_header: Option<Vec<u8>> = None;
        if flags & 0x40 != 0 {
            if b.len() - cursor < 1 {
                return Err(
                    TsError::Truncated {
                        what: "pack_field_length",
                        have: b.len(),
                        need: cursor + 1,
                    },
                );
            }
            let n: usize = b[cursor] as usize;
            cursor += 1;
            if b.len() - cursor < n {
                return Err(
                    TsError::Truncated { what: "pack_header", have: b.len(), need: cursor + n },
                );
            }
            pack_header = Some(slice_to_vec(&b[cursor..cursor + n]));
            cursor += n;
        }
        let mut program_packet_sequence_counter: Option<ProgramPacketSequenceCounter> = None;
        if flags & 0x20 != 0 {
            if b.len() - cursor < 2 {
                return Err(
                    TsError::Truncated {
                        what: "program_packet_sequence_counter",
                        have: b.len(),
                        need: cursor + 2,
                    },
                );
            }
            program_packet_sequence_counter = Some(
                ProgramPacketSequenceCounter {
                    counter: b[cursor] & 0x7F,
                    mpeg1_mpeg2_identifier: b[cursor + 1] & 0x40 != 0,
                    original_stuff_length: b[cursor + 1] & 0x3F,
                },
            );
            cursor += 2;
        }
        let mut p_std_buffer: Option<PStdBuffer> = None;
        if flags & 0x10 != 0 {
            if b.len() - cursor < 2 {
                return Err(
                    TsError::Truncated { what: "P-STD_buffer", have: b.len(), need: cursor + 2 },
                );
            }
            p_std_buffer = Some(
                PStdBuffer {
                    scale: b[cursor] & 0x20 != 0,
                    size: (((b[cursor] & 0x1F) as u16) << 8) | (b[cursor + 1] as u16),
                },
            );
            cursor += 2;
        }
        let mut extension_field_2: Option<Vec<u8>> = None;
        if flags & 0x01 != 0 {
            if b.len() - cursor < 1 {
                return Err(
                    TsError::Truncated {
                        what: "PES_extension_field_length",
                        have: b.len(),
                        need: cursor + 1,
                    },
                );
            }
            let n: usize = (b[cursor] & 0x7F) as usize;
            cursor += 1;
            if b.len() - cursor < n {
                return Err(
                    TsError::Truncated {
                        what: "PES_extension_field",
                        have: b.len(),
                        need: cursor + n,
                    },
                );
            }
            extension_field_2 = Some(slice_to_vec(&b[cursor..cursor + n]));
            cursor += n;
        }
        Ok(
            (
                PesExtension {
                    private_data,
                    pack_header,
                    program_packet_sequence_counter,
                    p_std_buffer,
                    extension_field_2,
                },
                cursor,
            ),
        )
    }
}

/// A `PES_extension` body ends with its last part: the flags byte and the parts
/// that it announces. What follows it does not matter, and no shorter head of it
/// is enough.
pub proof fn lemma_pes_extension_ends(e: Seq<u8>, tail: Seq<u8>, k: int)
    requires
        pes_extension_error(e) is None,
    ensures
        ({
            let used = pes_extension_end(e);
            let x = pes_extension_value(e);
            let other = e.take(used) + tail;
            &&& 1 <= used <= e.len()
            &&& used == 1 + (if x.private_data is Some { 16int } else { 0 }) + (match x.pack_header {
                Some(h) => 1 + h.len() as int,
                None => 0,
            }) + (if x.program_packet_sequence_counter is Some { 2int } else { 0 }) + (
            if x.p_std_buffer is Some { 2int } else { 0 }) + (match x.extension_field_2 {
                Some(h) => 1 + h.len() as int,
                None => 0,
            })
            &&& pes_extension_error(other) is None
            &&& pes_extension_value(other) == x
            &&& pes_extension_end(other) == used
            &&& 0 <= k < used ==> pes_extension_error(e.take(k)) matches Some(
                TsError::Truncated { .. },
            )
        }),
{
    let used = pes_extension_end(e);
    let other = e.take(used) + tail;
    assert(e[0] & 0x80 != 0 ==> other.subrange(1, 17) =~= e.subrange(1, 17));
    assert(forall|i: int| 0 <= i < used ==> other[i] == e[i]);
    if e[0] & 0x40 != 0 {
        assert(other.subrange(pack_at(e) + 1, counter_at(e)) =~= e.subrange(
            pack_at(e) + 1,
            counter_at(e),
        ));
    }
    if e[0] & 0x01 != 0 {
        let x = field_2_at(e);
        let n = x + 1 + (e[x] & 0x7F);
        assert(other.subrange(x + 1, n) =~= e.subrange(x + 1, n));
    }
    if 0 <= k < used {
        let short = e.take(k);
        assert(forall|i: int| 0 <= i < k ==> short[i] == e[i]);
    }
}

/// The optional fields of a PES header.
struct OptionalFields {
    pts_90k: Option<u64>,
    dts_90k: Option<u64>,
    escr_27mhz: Option<u64>,
    es_rate_50bps: Option<u32>,
    dsm_trick_mode: Option<u8>,
    additional_copy_info: Option<u8>,
    previous_pes_packet_crc: Option<u16>,
    pes_extension: Option<PesExtension>,
}

impl OptionalFields {
    /// The fields announced by flags byte `f` in area `o`.
    spec fn read_from(self, f: u8, o: Seq<u8>) -> bool {
        &&& self.pts_90k == (if (f >> 6) & 3 == 2 || (f >> 6) & 3 == 3 {
            Some(ts33_at(o, 0))
        } else {
            None
        })
        &&& self.dts_90k == (if (f >> 6) & 3 == 3 { Some(ts33_at(o, 5)) } else { None })
        &&& self.escr_27mhz == (if f & 0x20 != 0 { Some(escr_value(o, escr_at(f))) } else { None })
        &&& self.es_rate_50bps == (if f & 0x10 != 0 {
            Some(es_rate_value(o, es_rate_at(f)))
        } else {
            None
        })
        &&& self.dsm_trick_mode == (if f & 0x08 != 0 { Some(o[trick_mode_at(f)]) } else { None })
        &&& self.additional_copy_info == (if f & 0x04 != 0 {
            Some(o[copy_info_at(f)] & 0x7F)
        } else {
            None
        })
        &&& self.previous_pes_packet_crc == (if f & 0x02 != 0 {
            Some(be16_at(o, crc_at(f)))
        } else {
            None
        })
        &&& match self.pes_extension {
            Some(x) => f & 0x01 != 0 && x@ == pes_extension_value(
                o.subrange(pes_extension_at(f), o.len() as int),
            ),
            None => f & 0x01 == 0,
        }
    }
}

/// Read the optional fields that `flags2` announces in the area `opt`.
fn parse_optional_fields(flags2: u8, opt: &[u8]) -> (r: Result<OptionalFields, TsError>)
    requires
        opt@.len() <= 255,
    ensures
        match r {
            Ok(x) => optional_fields_error(flags2, opt@) is None && x.read_from(flags2, opt@),
            Err(e) => optional_fields_error(flags2, opt@) == Some(e),
        },
{
    let mut pts_90k: Option<u64> = None;
    let mut dts_90k: Option<u64> = None;
    let mut cursor: usize = 0;
    let pts_dts_flags: u8 = (flags2 >> 6) & 3;
    assert((flags2 >> 6) & 3 <= 3) by (bit_vector);
    match pts_dts_flags {
        2 => {
            if opt.len() < 5 {
                return Err(TsError::Truncated { what: "PES PTS", have: opt.len(), need: 5 });
            }
            pts_90k = Some(read_ts33_at(opt, 0));
            cursor = 5;
        },
        3 => {
            if opt.len() < 10 {
                return Err(
                    TsError::Truncated { what: "PES PTS+DTS", have: opt.len(), need: 10 },
                );
            }
            pts_90k = Some(read_ts33_at(opt, 0));
            dts_90k = Some(read_ts33_at(opt, 5));
            cursor = 10;
        },
        0 => {},
        _ => {
            return Err(TsError::Unsupported("PES PTS_DTS_flags = 0b01"));
        },
    }
    let mut escr_27mhz: Option<u64> = None;
    if flags2 & 0x20 != 0 {
        if opt.len() < cursor + 6 {
            return Err(
                TsError::Truncated { what: "PES ESCR", have: opt.len(), need: cursor + 6 },
            );
        }
        escr_27mhz = Some(read_escr_at(opt, cursor));
        cursor += 6;
    }
    let mut es_rate_50bps: Option<u32> = None;
    if flags2 & 0x10 != 0 {
        if opt.len() < cursor + 3 {
            return Err(
                TsError::Truncated { what: "PES ES_rate", have: opt.len(), need: cursor + 3 },
            );
        }
        es_rate_50bps = Some(
            (((opt[cursor] & 0x7F) as u32) << 15) | ((opt[cursor + 1] as u32) << 7) | (((
            opt[cursor + 2] >> 1) & 0x7F) as u32),
        );
        cursor += 3;
    }
    let mut dsm_trick_mode: Option<u8> = None;
    if flags2 & 0x08 != 0 {
        if opt.len() < cursor + 1 {
            return Err(
                TsError::Truncated {
                    what: "PES DSM_trick_mode",
                    have: opt.len(),
                    need: cursor + 1,
                },
            );
        }
        dsm_trick_mode = Some(opt[cursor]);
        cursor += 1;
    }
    let mut additional_copy_info: Option<u8> = None;
    if flags2 & 0x04 != 0 {
        if opt.len() < cursor + 1 {
            return Err(
                TsError::Truncated {
                    what: "PES additional_copy_info",
                    have: opt.len(),
                    need: cursor + 1,
                },
            );
        }
        additional_copy_info = Some(opt[cursor] & 0x7F);
        cursor += 1;
    }
    let mut previous_pes_packet_crc: Option<u16> = None;
    if flags2 & 0x02 != 0 {
        if opt.len() < cursor + 2 {
            return Err(
                TsError::Truncated {
                    what: "PES previous_PES_packet_CRC",
                    have: opt.len(),
                    need: cursor + 2,
                },
            );
        }
        previous_pes_packet_crc = Some(
            ((opt[cursor] as u16) << 8) | (opt[cursor + 1] as u16),
        );
        cursor += 2;
    }
    let mut pes_extension: Option<PesExtension> = None;
    if flags2 & 0x01 != 0 {
        let (x, _) = PesExtension::parse(&opt[cursor..opt.len()])?;
        pes_extension = Some(x);
    }
    Ok(
        OptionalFields {
            pts_90k,
            dts_90k,
            escr_27mhz,
            es_rate_50bps,
            dsm_trick_mode,
            additional_copy_info,
            previous_pes_packet_crc,
            pes_extension,
        },
    )
}

impl PesPacket {
    /// Parse a complete, contiguous PES packet: `bytes` runs from the start code
    /// prefix through the end of the payload.
    pub fn parse(bytes: &[u8]) -> (r: Result<Self, TsError>)
        ensures
            match r {
                Ok(p) => parse_pes_spec(bytes@) == Ok::<PesPacketView, TsError>(p@),
                Err(e) => parse_pes_spec(bytes@) == Err::<PesPacketView, TsError>(e),
            },
    {
        if bytes.len() < 6 {
            return Err(TsError::Truncated { what: "PES header", have: bytes.len(), need: 6 });
        }
        if bytes[0] != 0x00 || bytes[1] != 0x00 || bytes[2] != 0x01 {
            let start_code: [u8; 3] = [bytes[0], bytes[1], bytes[2]];
            proof {
                let s = [bytes@[0], bytes@[1], bytes@[2]];
                assert(start_code =~= s);
            }
            return Err(TsError::BadPesStartCode(start_code));
        }
        let stream_id: u8 = bytes[3];
        if !has_optional_pes_header(stream_id) {
            return Ok(
                PesPacket {
                    stream_id,
                    pes_scrambling_control: 0,
                    pes_priority: false,
                    data_alignment_indicator: false,
                    copyright: false,
                    original_or_copy: false,
                    pts_90k: None,
                    dts_90k: None,
                    escr_27mhz: None,
                    es_rate_50bps: None,
                    dsm_trick_mode: None,
                    additional_copy_info: None,
                    previous_pes_packet_crc: None,
                    pes_extension: None,
                    random_access: false,
                    payload: slice_to_vec(&bytes[6..bytes.len()]),
                },
            );
        }
        if bytes.len() < 9 {
            return Err(
                TsError::Truncated { what: "PES optional header", have: bytes.len(), need: 9 },
            );
        }
        let flags1: u8 = bytes[6];
        let flags2: u8 = bytes[7];
        let header_end: usize = 9 + bytes[8] as usize;
        if bytes.len() < header_end {
            return Err(
                TsError::Truncated {
                    what: "PES optional header body",
                    have: bytes.len(),
                    need: header_end,
                },
            );
        }
        let fields: OptionalFields = parse_optional_fields(flags2, &bytes[9..header_end])?;
        Ok(
            PesPacket {
                stream_id,
                pes_scrambling_control: (flags1 >> 4) & 3,
                pes_priority: flags1 & 0x08 != 0,
                data_alignment_indicator: flags1 & 0x04 != 0,
                copyright: flags1 & 0x02 != 0,
                original_or_copy: flags1 & 0x01 != 0,
                pts_90k: fields.pts_90k,
                dts_90k: fields.dts_90k,
                escr_27mhz: fields.escr_27mhz,
                es_rate_50bps: fields.es_rate_50bps,
                dsm_trick_mode: fields.dsm_trick_mode,
                additional_copy_info: fields.additional_copy_info,
                previous_pes_packet_crc: fields.previous_pes_packet_crc,
                pes_extension: fields.pes_extension,
                random_access: false,
                payload: slice_to_vec(&bytes[header_end..bytes.len()]),
            },
        )
    }

    /// The `DSM_trick_mode` byte, decoded; `None` when the header carried none.
    /// Meaningful for video elementary streams only.
    pub fn trick_mode(&self) -> (r: Option<DsmTrickMode>)
        ensures
            match self.dsm_trick_mode {
                Some(b) => r is Some && r->0.announced_by(b),
                None => r is None,
            },
    {
        match self.dsm_trick_mode {
            Some(b) => Some(DsmTrickMode::from_byte(b)),
            None => None,
        }
    }
}

} // verus!
