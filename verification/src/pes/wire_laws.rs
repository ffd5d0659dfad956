//! What the bytes of a PES packet mean, place by place.
use vstd::prelude::*;

use crate::bits::{bit, lemma_byte_bits, lemma_joined_bytes, lemma_joined_escr};
use crate::bytes::{be16_at, be16_bytes, lemma_be16_round_trip};
use crate::error::TsError;
use crate::packet::encode::ts33_bytes;
use crate::packet::parse::ts33_at;
use crate::packet::round_trip::lemma_ts33_bits;
use crate::packet::wire_laws::lemma_eight_flags;
use crate::pes::encode::{es_rate_bytes, escr_bytes, PesHeaderSpec};
use crate::pes::parse::{
    carries_optional_header, copy_info_at, es_rate_value, escr_value, optional_fields_error,
    parse_pes_spec, pes_error, pes_extension_error, pes_extension_value, PesExtension,
    PesExtensionView, PesPacket,
};
use crate::pes::round_trip::{
    lemma_escr_bits, lemma_flags1_bits, lemma_pes_round_trip, lemma_small_field_bits,
};
use crate::pes::trick_mode::{CoefficientSelection, DsmTrickMode, FieldId};

verus! {

/// The stream ids whose packets have no optional header: program stream map, padding,
/// private stream 2, ECM, EMM, DSM-CC, H.222.1 type E and program stream directory. All
/// others have it, the extended stream id 0xFD among them.
pub proof fn lemma_ids_without_header(stream_id: u8)
    ensures
        carries_optional_header(stream_id) <==> {
            &&& stream_id != 0xBC && stream_id != 0xBE && stream_id != 0xBF
            &&& stream_id != 0xF0 && stream_id != 0xF1 && stream_id != 0xF2
            &&& stream_id != 0xF8 && stream_id != 0xFF
        },
{
}

/// A PES packet starts with 00 00 01; it needs the six bytes before its payload, or
/// nine and those its ninth byte announces, by its stream id.
pub proof fn lemma_pes_accepted(b: Seq<u8>)
    requires
        b.len() <= usize::MAX,
    ensures
        parse_pes_spec(b) is Ok <==> {
            &&& b.len() >= 6
            &&& b[0] == 0 && b[1] == 0 && b[2] == 1
            &&& carries_optional_header(b[3]) ==> b.len() >= 9 && b.len() >= 9 + b[8]
                && optional_fields_error(b[7], b.subrange(9, 9 + b[8])) is None
        },
        b.len() >= 6 && !(b[0] == 0 && b[1] == 0 && b[2] == 1) ==> pes_error(b) == Some(
            TsError::BadPesStartCode([b[0], b[1], b[2]]),
        ),
{
}

/// Without an optional header everything after the sixth byte is payload.
pub proof fn lemma_bare_packet(b: Seq<u8>)
    requires
        b.len() >= 6,
        b[0] == 0,
        b[1] == 0,
        b[2] == 1,
        ({
            let id = b[3];
            ||| id == 0xBC || id == 0xBE || id == 0xBF
            ||| id == 0xF0 || id == 0xF1 || id == 0xF2
            ||| id == 0xF8 || id == 0xFF
        }),
    ensures
        parse_pes_spec(b) matches Ok(p) && {
            &&& p.stream_id == b[3]
            &&& p.pts_90k is None
            &&& p.dts_90k is None
            &&& p.payload == b.skip(6)
        },
{
    assert(b.subrange(6, b.len() as int) =~= b.skip(6));
}

/// With an optional header the first byte of flags has, after '10', two bits of
/// scrambling and the bits for priority, alignment, copyright and original. The fields
/// stand one behind the other as the second byte flags them: a PTS in five bytes, or
/// PTS and DTS in ten, ESCR in six, ES rate in three, trick mode and copy info in one
/// each, a CRC in two, and the extension. The payload follows behind as many bytes as
/// byte 8 counts.
pub proof fn lemma_header_places(
    b: Seq<u8>,
    pts: bool,
    dts: bool,
    escr: bool,
    rate: bool,
    trick: bool,
    copy: bool,
    crc: bool,
    extension: bool,
)
    requires
        parse_pes_spec(b) is Ok,
        ({
            let id = b[3];
            &&& id != 0xBC && id != 0xBE && id != 0xBF
            &&& id != 0xF0 && id != 0xF1 && id != 0xF2
            &&& id != 0xF8 && id != 0xFF
        }),
        b[7] == 128 * bit(pts) + 64 * bit(dts) + 32 * bit(escr) + 16 * bit(rate) + 8 * bit(trick) + 4
            * bit(copy) + 2 * bit(crc) + bit(extension),
    ensures
        ({
            let p = parse_pes_spec(b)->Ok_0;
            let o = b.subrange(9, 9 + b[8]);
            let e = 5 * bit(pts) + 5 * bit(dts);
            let r = e + 6 * bit(escr);
            let t = r + 3 * bit(rate);
            let c = t + bit(trick);
            let k = c + bit(copy);
            let x = k + 2 * bit(crc);
            &&& p.stream_id == b[3]
            &&& p.pes_scrambling_control == b[6] / 16 % 4
            &&& p.pes_priority == (b[6] / 8 % 2 == 1)
            &&& p.data_alignment_indicator == (b[6] / 4 % 2 == 1)
            &&& p.copyright == (b[6] / 2 % 2 == 1)
            &&& p.original_or_copy == (b[6] % 2 == 1)
            &&& dts ==> pts
            &&& p.pts_90k == if pts { Some(ts33_at(o, 0)) } else { None }
            &&& p.dts_90k == if dts { Some(ts33_at(o, 5)) } else { None }
            &&& p.escr_27mhz == if escr { Some(escr_value(o, e)) } else { None }
            &&& p.es_rate_50bps == if rate { Some(es_rate_value(o, r)) } else { None }
            &&& p.dsm_trick_mode == if trick { Some(o[t]) } else { None }
            &&& copy ==> p.additional_copy_info is Some && p.additional_copy_info->0 == o[c] % 128
            &&& !copy ==> p.additional_copy_info is None
            &&& p.previous_pes_packet_crc == if crc { Some(be16_at(o, k)) } else { None }
            &&& p.pes_extension == if extension {
                Some(pes_extension_value(o.subrange(x, o.len() as int)))
            } else {
                None
            }
            &&& !p.random_access
            &&& p.payload == b.skip(9 + b[8])
            &&& x <= b[8]
        }),
{
    lemma_byte_bits(b[6]);
    lemma_eight_flags(b[7], pts, dts, escr, rate, trick, copy, crc, extension);
    let o = b.subrange(9, 9 + b[8]);
    let f = b[7];
    assert(optional_fields_error(f, o) is None);
    assert(b.subrange(9 + b[8], b.len() as int) =~= b.skip(9 + b[8]));
    if copy {
        lemma_byte_bits(o[copy_info_at(f)]);
    }
}

/// An ESCR: 33 bits of base in groups of three, fifteen and fifteen, and nine of
/// extension, each before a marker bit; in ticks of 27 MHz.
pub proof fn lemma_escr_value(o: Seq<u8>, at: int)
    ensures
        ({
            let base = (o[at] / 8 % 8) * 1073741824 + (o[at] % 4) * 268435456 + o[at + 1] * 1048576
                + (o[at + 2] / 8) * 32768 + (o[at + 2] % 4) * 8192 + o[at + 3] * 32 + o[at + 4] / 8;
            let ext = (o[at + 4] % 4) * 128 + o[at + 5] / 2;
            escr_value(o, at) == 300 * base + ext
        }),
{
    lemma_joined_escr(o[at], o[at + 1], o[at + 2], o[at + 3], o[at + 4], o[at + 5]);
}

/// An ES rate: 22 bits between two marker bits.
pub proof fn lemma_es_rate_value(o: Seq<u8>, at: int)
    ensures
        es_rate_value(o, at) == (o[at] % 128) * 32768 + o[at + 1] * 128 + o[at + 2] / 2,
{
    lemma_joined_bytes(o[at], o[at + 1], o[at + 2], 0);
}

/// The parts of a PES extension, one behind the other as the first byte flags them:
/// sixteen bytes of private data, a pack header behind its length, a counter of seven
/// bits with a flag and six bits of stuffing length, a buffer of a scale bit and 13
/// bits, and a field behind seven bits of length.
pub proof fn lemma_extension_places(
    e: Seq<u8>,
    private: bool,
    pack: bool,
    counter: bool,
    p_std: bool,
    field: bool,
)
    requires
        pes_extension_error(e) is None,
        e[0] / 128 == bit(private),
        e[0] / 64 % 2 == bit(pack),
        e[0] / 32 % 2 == bit(counter),
        e[0] / 16 % 2 == bit(p_std),
        e[0] % 2 == bit(field),
    ensures
        ({
            let v = pes_extension_value(e);
            let h = 1 + 16 * bit(private);
            let c = h + (if pack { 1 + e[h] as int } else { 0 });
            let p = c + 2 * bit(counter);
            let x = p + 2 * bit(p_std);
            &&& v.private_data == if private { Some(e.subrange(1, 17)) } else { None }
            &&& v.pack_header == if pack { Some(e.subrange(h + 1, c)) } else { None }
            &&& v.program_packet_sequence_counter is Some == counter
            &&& v.program_packet_sequence_counter matches Some(n) ==> {
                &&& n.counter == e[c] % 128
                &&& n.mpeg1_mpeg2_identifier == (e[c + 1] / 64 % 2 == 1)
                &&& n.original_stuff_length == e[c + 1] % 64
            }
            &&& v.p_std_buffer is Some == p_std
            &&& v.p_std_buffer matches Some(q) ==> {
                &&& q.scale == (e[p] / 32 % 2 == 1)
                &&& q.size == 256 * (e[p] % 32) + e[p + 1]
            }
            &&& v.extension_field_2 == if field {
                Some(e.subrange(x + 1, x + 1 + e[x] % 128))
            } else {
                None
            }
        }),
{
    lemma_byte_bits(e[0]);
    let h = 1 + 16 * bit(private);
    let c = h + (if pack { 1 + e[h] as int } else { 0 });
    let p = c + 2 * bit(counter);
    let x = p + 2 * bit(p_std);
    lemma_byte_bits(e[c]);
    lemma_byte_bits(e[c + 1]);
    lemma_byte_bits(e[p]);
    lemma_byte_bits(e[x]);
    lemma_joined_bytes(e[p], e[p + 1], 0, 0);
}

/// Timestamps survive on every stream id whose packets have the optional header: what
/// is encoded with a PTS, and perhaps another DTS, parses back with them and with its
/// payload.
pub proof fn lemma_timestamps_survive(
    stream_id: u8,
    pts: u64,
    dts: Option<u64>,
    payload: Seq<u8>,
)
    requires
        stream_id != 0xBC && stream_id != 0xBE && stream_id != 0xBF,
        stream_id != 0xF0 && stream_id != 0xF1 && stream_id != 0xF2,
        stream_id != 0xF8 && stream_id != 0xFF,
        pts < 0x2_0000_0000,
        dts matches Some(d) ==> d < 0x2_0000_0000 && d != pts,
        payload.len() <= 65522,
    ensures
        ({
            let spec = PesHeaderSpec::timestamps_only(stream_id, Some(pts), dts, false);
            &&& spec.error(payload.len() as int) is None
            &&& parse_pes_spec(spec.encoded(payload)) matches Ok(p) && {
                &&& p.stream_id == stream_id
                &&& p.pts_90k == Some(pts)
                &&& p.dts_90k == dts
                &&& p.payload == payload
            }
        }),
{
    let spec = PesHeaderSpec::timestamps_only(stream_id, Some(pts), dts, false);
    assert(spec.optional_fields().len() == 5 + (if dts is Some { 5int } else { 0 }));
    lemma_pes_round_trip(spec, payload);
}

/// Bytes 4 and 5 of a packet that is written count the bytes after them, or are zero
/// where a video packet is to be open-ended; byte 8 counts the optional fields.
pub proof fn lemma_length_written(spec: PesHeaderSpec, payload: Seq<u8>)
    requires
        spec.error(payload.len() as int) is None,
    ensures
        ({
            let b = spec.encoded(payload);
            let open = spec.unbounded_length;
            &&& b.len() >= 6
            &&& b[0] == 0 && b[1] == 0 && b[2] == 1 && b[3] == spec.stream_id
            &&& be16_at(b, 4) == if open { 0 } else { b.len() - 6 }
            &&& open ==> 0xE0 <= spec.stream_id <= 0xEF
            &&& carries_optional_header(spec.stream_id) ==> b.len() == 9 + b[8] + payload.len()
        }),
{
    let b = spec.encoded(payload);
    let opt = spec.optional_fields();
    let length = if !carries_optional_header(spec.stream_id) {
        payload.len() as u16
    } else if spec.unbounded_length {
        0u16
    } else {
        (3 + opt.len() + payload.len()) as u16
    };
    let h = spec.fixed_header(length);
    assert(b[0] == h[0] && b[1] == h[1] && b[2] == h[2] && b[3] == h[3] && b[4] == h[4] && b[5]
        == h[5]);
    assert(b.subrange(4, 6) =~= be16_bytes(length));
    lemma_be16_round_trip(length, b, 4);
}

/// The five bits of a trick mode, by the first three: fast modes have two bits for the
/// field, one for refresh and two for the coefficients, slow ones a repeat count, and a
/// freeze frame two bits for the field.
pub proof fn lemma_trick_mode_bits(m: DsmTrickMode, b: u8)
    requires
        m.announced_by(b),
    ensures
        m is FastForward <==> b / 32 == 0,
        m is SlowMotion <==> b / 32 == 1,
        m is FreezeFrame <==> b / 32 == 2,
        m is FastReverse <==> b / 32 == 3,
        m is SlowReverse <==> b / 32 == 4,
        m is Reserved <==> b / 32 >= 5,
        match m {
            DsmTrickMode::FastForward { field_id, intra_slice_refresh, frequency_truncation } => {
                &&& field_code(field_id) == b / 8 % 4
                &&& intra_slice_refresh == (b / 4 % 2 == 1)
                &&& coefficient_code(frequency_truncation) == b % 4
            },
            DsmTrickMode::SlowMotion { rep_cntrl } => rep_cntrl == b % 32,
            DsmTrickMode::FreezeFrame { field_id } => field_code(field_id) == b / 8 % 4,
            DsmTrickMode::FastReverse { field_id, intra_slice_refresh, frequency_truncation } => {
                &&& field_code(field_id) == b / 8 % 4
                &&& intra_slice_refresh == (b / 4 % 2 == 1)
                &&& coefficient_code(frequency_truncation) == b % 4
            },
            DsmTrickMode::SlowReverse { rep_cntrl } => rep_cntrl == b % 32,
            DsmTrickMode::Reserved { trick_mode_control, bits } => trick_mode_control == b / 32
                && bits == b % 32,
        },
{
    lemma_byte_bits(b);
}

/// Top field, bottom field, complete frame, reserved: 0 to 3.
pub open spec fn field_code(f: FieldId) -> int {
    if f is TopFieldOnly {
        0
    } else if f is BottomFieldOnly {
        1
    } else if f is CompleteFrame {
        2
    } else {
        3
    }
}

/// DC only, the first three, the first six, all: 0 to 3.
pub open spec fn coefficient_code(c: CoefficientSelection) -> int {
    if c is DcOnly {
        0
    } else if c is FirstThree {
        1
    } else if c is FirstSix {
        2
    } else {
        3
    }
}

/// The two-bit codes of fields and coefficients.
pub proof fn lemma_codes(f: FieldId, c: CoefficientSelection)
    ensures
        f.code() == field_code(f),
        c.code() == coefficient_code(c),
{
}

/// Which headers are written: on a stream id without an optional header none but the bare
/// one; else with values that fit their bits, a DTS only beside another PTS, a rate that
/// is not zero, no more than 255 bytes of fields, and open-ended only for video.
pub proof fn lemma_header_accepted(spec: PesHeaderSpec, n: int)
    requires
        n >= 0,
    ensures
        spec.error(n) is None <==> if carries_optional_header(spec.stream_id) {
            &&& spec.pes_scrambling_control < 4
            &&& spec.pts_90k matches Some(x) ==> x < 0x2_0000_0000
            &&& spec.dts_90k matches Some(x) ==> x < 0x2_0000_0000 && spec.pts_90k is Some
                && spec.pts_90k != Some(x)
            &&& spec.escr_27mhz matches Some(x) ==> x < 300 * 0x2_0000_0000
            &&& spec.es_rate_50bps matches Some(x) ==> 0 < x < 4194304
            &&& spec.additional_copy_info matches Some(x) ==> x < 128
            &&& spec.pes_extension matches Some(x) ==> x@.error() is None
            &&& spec.optional_fields().len() <= 255
            &&& if spec.unbounded_length {
                0xE0 <= spec.stream_id <= 0xEF
            } else {
                3 + spec.optional_fields().len() + n <= 65535
            }
        } else {
            &&& spec.sets_nothing()
            &&& !spec.unbounded_length
            &&& n <= 65535
        },
{
}

/// Which extensions are written: a counter of seven bits, a stuffing length of six, a
/// buffer size of thirteen, a pack header of at most 255 bytes and a field of at most 127.
pub proof fn lemma_extension_accepted(x: PesExtensionView)
    ensures
        x.error() is None <==> {
            &&& x.program_packet_sequence_counter matches Some(c) ==> c.counter < 128
                && c.original_stuff_length < 64
            &&& x.p_std_buffer matches Some(p) ==> p.size < 8192
            &&& x.pack_header matches Some(h) ==> h.len() <= 255
            &&& x.extension_field_2 matches Some(d) ==> d.len() <= 127
        },
{
}

/// The optional fields of a header are accepted where the flagged ones fit, and where a
/// DTS is not flagged without a PTS.
pub proof fn lemma_fields_accepted(
    f: u8,
    o: Seq<u8>,
    pts: bool,
    dts: bool,
    escr: bool,
    rate: bool,
    trick: bool,
    copy: bool,
    crc: bool,
    extension: bool,
)
    requires
        f == 128 * bit(pts) + 64 * bit(dts) + 32 * bit(escr) + 16 * bit(rate) + 8 * bit(trick) + 4
            * bit(copy) + 2 * bit(crc) + bit(extension),
    ensures
        optional_fields_error(f, o) is None <==> {
            let x = 5 * bit(pts) + 5 * bit(dts) + 6 * bit(escr) + 3 * bit(rate) + bit(trick) + bit(
                copy,
            ) + 2 * bit(crc);
            &&& dts ==> pts
            &&& x <= o.len()
            &&& extension ==> pes_extension_error(o.subrange(x, o.len() as int)) is None
        },
{
    lemma_eight_flags(f, pts, dts, escr, rate, trick, copy, crc, extension);
}

/// What a parsed PES packet holds is what its fields say.
pub proof fn lemma_packet_view(p: PesPacket)
    ensures
        p@.stream_id == p.stream_id,
        p@.pes_scrambling_control == p.pes_scrambling_control,
        p@.pes_priority == p.pes_priority,
        p@.data_alignment_indicator == p.data_alignment_indicator,
        p@.copyright == p.copyright,
        p@.original_or_copy == p.original_or_copy,
        p@.pts_90k == p.pts_90k,
        p@.dts_90k == p.dts_90k,
        p@.escr_27mhz == p.escr_27mhz,
        p@.es_rate_50bps == p.es_rate_50bps,
        p@.dsm_trick_mode == p.dsm_trick_mode,
        p@.additional_copy_info == p.additional_copy_info,
        p@.previous_pes_packet_crc == p.previous_pes_packet_crc,
        p@.random_access == p.random_access,
        p@.payload == p.payload@,
        p.pes_extension matches Some(x) ==> p@.pes_extension == Some(x@),
        p.pes_extension is None ==> p@.pes_extension is None,
{
}

/// What a parsed PES extension holds is what its fields say.
pub proof fn lemma_extension_view(x: PesExtension)
    ensures
        x.private_data matches Some(d) ==> x@.private_data == Some(d@),
        x.private_data is None ==> x@.private_data is None,
        x.pack_header matches Some(h) ==> x@.pack_header == Some(h@),
        x.pack_header is None ==> x@.pack_header is None,
        x@.program_packet_sequence_counter == x.program_packet_sequence_counter,
        x@.p_std_buffer == x.p_std_buffer,
        x.extension_field_2 matches Some(d) ==> x@.extension_field_2 == Some(d@),
        x.extension_field_2 is None ==> x@.extension_field_2 is None,
{
}

/// The bits that mean nothing are written as they should be: '10' before the flags of a
/// header, '0010' before a PTS alone, '0011' and '0001' before PTS and DTS.
pub proof fn lemma_prefixes_written(spec: PesHeaderSpec)
    requires
        spec.pes_scrambling_control < 4,
        spec.pts_90k matches Some(x) ==> x < 0x2_0000_0000,
        spec.dts_90k matches Some(x) ==> x < 0x2_0000_0000,
    ensures
        spec.flags1() / 64 == 2,
        spec.pts_90k is Some && spec.dts_90k is None ==> spec.timestamp_bytes()[0] / 16 == 2,
        spec.pts_90k is Some && spec.dts_90k is Some ==> spec.timestamp_bytes()[0] / 16 == 3
            && spec.timestamp_bytes()[5] / 16 == 1,
{
    assert(spec.flags1() / 64 == 2) by {
        lemma_flags1_bits(
            spec.pes_scrambling_control,
            spec.pes_priority,
            spec.data_alignment_indicator,
            spec.copyright,
            spec.original_or_copy,
        );
        lemma_byte_bits(spec.flags1());
    }
    if spec.pts_90k is Some {
        lemma_prefix_byte(2, spec.pts_90k->0);
        lemma_prefix_byte(3, spec.pts_90k->0);
        if spec.dts_90k is Some {
            lemma_prefix_byte(1, spec.dts_90k->0);
        }
    }
}

proof fn lemma_prefix_byte(prefix: u8, t: u64)
    requires
        prefix < 16,
        t < 0x2_0000_0000,
    ensures
        ts33_bytes(prefix, t)[0] / 16 == prefix,
        ts33_bytes(prefix, t).len() == 5,
{
    lemma_ts33_bits(prefix, t);
    lemma_byte_bits(ts33_bytes(prefix, t)[0]);
}

/// Ones and markers in an ESCR: two ones first, and a marker after each group.
pub proof fn lemma_escr_markers_written(escr: u64)
    requires
        escr < 300 * 0x2_0000_0000,
    ensures
        ({
            let e = escr_bytes(escr);
            &&& e.len() == 6
            &&& e[0] / 64 == 3
            &&& e[0] / 4 % 2 == 1 && e[2] / 4 % 2 == 1 && e[4] / 4 % 2 == 1 && e[5] % 2 == 1
        }),
{
    lemma_escr_bits(escr / 300, escr % 300);
    let e = escr_bytes(escr);
    lemma_byte_bits(e[0]);
    lemma_byte_bits(e[2]);
    lemma_byte_bits(e[4]);
    lemma_byte_bits(e[5]);
}

/// Markers around an ES rate, and before copy info.
pub proof fn lemma_field_markers_written(spec: PesHeaderSpec, rate: u32, info: u8)
    requires
        rate < 4194304,
        info < 128,
    ensures
        es_rate_bytes(rate).len() == 3,
        es_rate_bytes(rate)[0] >= 128,
        es_rate_bytes(rate)[2] % 2 == 1,
        spec.additional_copy_info == Some(info) ==> spec.copy_info_field()[0] == 128 + info,
{
    lemma_small_field_bits(rate, info);
    lemma_byte_bits(es_rate_bytes(rate)[2]);
    lemma_byte_bits(0x80u8 | info);
}

} // verus!
