//! Laws between the write side and the read side of PES packets.
use vstd::prelude::*;

use crate::bytes::{be16_at, lemma_be16_round_trip, lemma_concat_parts};
use crate::packet::encode::ts33_bytes;
use crate::packet::parse::ts33_at;
use crate::packet::round_trip::lemma_ts33_round_trip;
use crate::pes::encode::{es_rate_bytes, escr_bytes, PesHeaderSpec};
use crate::pes::parse::{
    carries_optional_header, copy_info_at, counter_at, crc_at, es_rate_at, es_rate_value, escr_at,
    escr_value, field_2_at, optional_fields_error, p_std_at, pack_at, parse_pes_spec, pes_error,
    pes_extension_at, pes_extension_error, pes_extension_value, pes_value, trick_mode_at,
    PesExtensionView, PesPacketView,
};

verus! {

/// An ESCR whose base has 33 bits is read back as written.
pub proof fn lemma_escr_round_trip(escr: u64, o: Seq<u8>, at: int)
    requires
        escr / 300 <= 0x1_FFFF_FFFF,
        0 <= at,
        at + 6 <= o.len(),
        o.subrange(at, at + 6) == escr_bytes(escr),
    ensures
        escr_value(o, at) == escr,
{
    let w = o.subrange(at, at + 6);
    assert(o[at] == w[0] && o[at + 1] == w[1] && o[at + 2] == w[2]);
    assert(o[at + 3] == w[3] && o[at + 4] == w[4] && o[at + 5] == w[5]);
    lemma_escr_bits(escr / 300, escr % 300);
}

pub(crate) proof fn lemma_escr_bits(base: u64, ext: u64)
    by (bit_vector)
    requires
        base <= 0x1_FFFF_FFFF,
        ext < 300,
    ensures
        ({
            let b0 = 0xC0u8 | ((((base >> 30) & 7) as u8) << 3) | 4 | (((base >> 28) & 3) as u8);
            let b1 = ((base >> 20) & 0xFF) as u8;
            let b2 = ((((base >> 15) & 0x1F) as u8) << 3) | 4 | (((base >> 13) & 3) as u8);
            let b3 = ((base >> 5) & 0xFF) as u8;
            let b4 = (((base & 0x1F) as u8) << 3) | 4 | (((ext >> 7) & 3) as u8);
            let b5 = (((ext & 0x7F) as u8) << 1) | 1;
            &&& (((((b0 >> 3) & 7) as u64) << 30) | (((b0 & 3) as u64) << 28) | ((b1 as u64) << 20)
                | ((((b2 >> 3) & 0x1F) as u64) << 15) | (((b2 & 3) as u64) << 13) | ((b3 as u64)
                << 5) | (((b4 >> 3) & 0x1F) as u64)) == base
            &&& ((((b4 & 3) as u64) << 7) | (((b5 >> 1) & 0x7F) as u64)) == ext
            &&& b0 >= 192 && b0 & 4 != 0 && b2 & 4 != 0 && b4 & 4 != 0 && b5 & 1 != 0
        }),
{
}

pub(crate) proof fn lemma_small_field_bits(rate: u32, info: u8)
    by (bit_vector)
    requires
        rate <= 0x3F_FFFF,
        info <= 0x7F,
    ensures
        ({
            let r0 = 0x80u8 | (((rate >> 15) & 0x7F) as u8);
            let r1 = ((rate >> 7) & 0xFF) as u8;
            let r2 = (((rate & 0x7F) as u8) << 1) | 1;
            &&& ((((r0 & 0x7F) as u32) << 15) | ((r1 as u32) << 7) | (((r2 >> 1) & 0x7F) as u32))
                == rate
            &&& (0x80u8 | info) & 0x7F == info
            &&& (0x80u8 | info) >= 128 && r0 >= 128 && r2 & 1 != 0
        }),
{
}

pub(crate) proof fn lemma_flags1_bits(scrambling: u8, p: bool, d: bool, c: bool, o: bool)
    by (bit_vector)
    requires
        scrambling <= 3,
    ensures
        ({
            let f = 0x80u8 | (scrambling << 4) | (if p { 0x08u8 } else { 0 }) | (if d {
                0x04u8
            } else {
                0
            }) | (if c { 0x02u8 } else { 0 }) | (if o { 0x01u8 } else { 0 });
            &&& (f >> 4) & 3 == scrambling
            &&& f >> 6 == 2
            &&& (f & 0x08 != 0) == p
            &&& (f & 0x04 != 0) == d
            &&& (f & 0x02 != 0) == c
            &&& (f & 0x01 != 0) == o
        }),
{
}

proof fn lemma_flags2_bits(p: bool, d: bool, e: bool, r: bool, t: bool, a: bool, c: bool, x: bool)
    by (bit_vector)
    requires
        d ==> p,
    ensures
        ({
            let f = (if p { 0x80u8 } else { 0 }) | (if d { 0x40u8 } else { 0 }) | (if e {
                0x20u8
            } else {
                0
            }) | (if r { 0x10u8 } else { 0 }) | (if t { 0x08u8 } else { 0 }) | (if a {
                0x04u8
            } else {
                0
            }) | (if c { 0x02u8 } else { 0 }) | (if x { 0x01u8 } else { 0 });
            &&& (f >> 6) & 3 == if d { 3u8 } else if p { 2u8 } else { 0u8 }
            &&& (f & 0x20 != 0) == e
            &&& (f & 0x10 != 0) == r
            &&& (f & 0x08 != 0) == t
            &&& (f & 0x04 != 0) == a
            &&& (f & 0x02 != 0) == c
            &&& (f & 0x01 != 0) == x
        }),
{
}

pub(crate) proof fn lemma_extension_flag_bits(p: bool, h: bool, c: bool, s: bool, x: bool)
    by (bit_vector)
    ensures
        ({
            let f = (if p { 0x80u8 } else { 0 }) | (if h { 0x40u8 } else { 0 }) | (if c {
                0x20u8
            } else {
                0
            }) | (if s { 0x10u8 } else { 0 }) | 0x0E | (if x { 0x01u8 } else { 0 });
            &&& (f & 0x80 != 0) == p
            &&& (f & 0x40 != 0) == h
            &&& (f & 0x20 != 0) == c
            &&& (f & 0x10 != 0) == s
            &&& (f & 0x01 != 0) == x
            &&& f & 0x0E == 14
        }),
{
}

pub(crate) proof fn lemma_extension_part_bits(
    counter: u8,
    id: bool,
    stuff: u8,
    scale: bool,
    size: u16,
    len: u8,
)
    by (bit_vector)
    requires
        counter <= 0x7F,
        stuff <= 0x3F,
        size <= 0x1FFF,
        len <= 0x7F,
    ensures
        ({
            let c1 = 0x80u8 | (if id { 0x40u8 } else { 0 }) | stuff;
            let p0 = 0x40u8 | (if scale { 0x20u8 } else { 0 }) | (((size >> 8) & 0x1F) as u8);
            let p1 = (size & 0xFF) as u8;
            &&& (0x80u8 | counter) & 0x7F == counter
            &&& (c1 & 0x40 != 0) == id
            &&& c1 & 0x3F == stuff
            &&& (p0 & 0x20 != 0) == scale
            &&& ((((p0 & 0x1F) as u16) << 8) | (p1 as u16)) == size
            &&& (0x80u8 | len) & 0x7F == len
            &&& c1 >= 128 && p0 >> 6 == 1 && (0x80u8 | counter) >= 128 && (0x80u8 | len) >= 128
        }),
{
}

/// An encoded `PES_extension` body is read back as written.
pub proof fn lemma_pes_extension_round_trip(x: PesExtensionView, e: Seq<u8>)
    requires
        x.error() is None,
        x.private_data matches Some(d) ==> d.len() == 16,
        e == x.bytes(),
    ensures
        pes_extension_error(e) is None,
        pes_extension_value(e) == x,
{
    let pd = x.private_bytes();
    let ph = x.pack_bytes();
    let pc = x.counter_bytes();
    let ps = x.p_std_bytes();
    let pf = x.field_2_bytes();
    lemma_concat_parts(seq![x.flags()], pd, ph, pc, ps, pf);
    let o1 = 1 + pd.len() as int;
    let o2 = o1 + ph.len();
    let o3 = o2 + pc.len();
    let o4 = o3 + ps.len();
    let o5 = o4 + pf.len();
    assert(e[0] == e.subrange(0, 1)[0]);
    lemma_extension_flag_bits(
        x.private_data is Some,
        x.pack_header is Some,
        x.program_packet_sequence_counter is Some,
        x.p_std_buffer is Some,
        x.extension_field_2 is Some,
    );
    let (counter, id, stuff) = match x.program_packet_sequence_counter {
        Some(c) => (c.counter, c.mpeg1_mpeg2_identifier, c.original_stuff_length),
        None => (0u8, false, 0u8),
    };
    let (scale, size) = match x.p_std_buffer {
        Some(p) => (p.scale, p.size),
        None => (false, 0u16),
    };
    let len = match x.extension_field_2 {
        Some(f) => f.len() as u8,
        None => 0u8,
    };
    lemma_extension_part_bits(counter, id, stuff, scale, size, len);
    assert(pack_at(e) == o1);
    if x.pack_header is Some {
        let h = x.pack_header->0;
        assert(e[o1] == e.subrange(o1, o2)[0]);
        assert(e.subrange(o1 + 1, o2) =~= h) by {
            assert forall|i: int| 0 <= i < h.len() implies e[o1 + 1 + i] == h[i] by {
                assert(e[o1 + 1 + i] == e.subrange(o1, o2)[1 + i]);
            }
        }
    }
    assert(counter_at(e) == o2);
    if x.program_packet_sequence_counter is Some {
        assert(e[o2] == e.subrange(o2, o3)[0] && e[o2 + 1] == e.subrange(o2, o3)[1]);
    }
    assert(p_std_at(e) == o3);
    if x.p_std_buffer is Some {
        assert(e[o3] == e.subrange(o3, o4)[0] && e[o3 + 1] == e.subrange(o3, o4)[1]);
    }
    assert(field_2_at(e) == o4);
    if x.extension_field_2 is Some {
        let f = x.extension_field_2->0;
        assert(e[o4] == e.subrange(o4, o5)[0]);
        assert(e.subrange(o4 + 1, o5) =~= f) by {
            assert forall|i: int| 0 <= i < f.len() implies e[o4 + 1 + i] == f[i] by {
                assert(e[o4 + 1 + i] == e.subrange(o4, o5)[1 + i]);
            }
        }
    }
    let v = pes_extension_value(e);
    assert(v.private_data == x.private_data);
    assert(v.pack_header == x.pack_header);
    assert(v.program_packet_sequence_counter == x.program_packet_sequence_counter);
    assert(v.p_std_buffer == x.p_std_buffer);
    assert(v.extension_field_2 == x.extension_field_2);
}

/// The packet that reading back `spec` around `payload` must give.
pub open spec fn packet_of(spec: PesHeaderSpec, payload: Seq<u8>) -> PesPacketView {
    PesPacketView {
        stream_id: spec.stream_id,
        pes_scrambling_control: spec.pes_scrambling_control,
        pes_priority: spec.pes_priority,
        data_alignment_indicator: spec.data_alignment_indicator,
        copyright: spec.copyright,
        original_or_copy: spec.original_or_copy,
        pts_90k: spec.pts_90k,
        dts_90k: spec.dts_90k,
        escr_27mhz: spec.escr_27mhz,
        es_rate_50bps: spec.es_rate_50bps,
        dsm_trick_mode: match spec.trick_mode {
            Some(m) => Some(m.byte()),
            None => None,
        },
        additional_copy_info: spec.additional_copy_info,
        previous_pes_packet_crc: spec.previous_pes_packet_crc,
        pes_extension: match spec.pes_extension {
            Some(x) => Some(x@),
            None => None,
        },
        random_access: false,
        payload,
    }
}

/// The second flags byte announces exactly the fields that are set, and places
/// each behind those before it.
proof fn lemma_field_offsets(spec: PesHeaderSpec)
    requires
        spec.field_error() is None,
    ensures
        ({
            let f = spec.flags2();
            let o1 = spec.timestamp_bytes().len() as int;
            let o2 = o1 + spec.escr_field().len();
            let o3 = o2 + spec.rate_field().len();
            let o4 = o3 + spec.trick_mode_field().len();
            let o5 = o4 + spec.copy_info_field().len();
            let o6 = o5 + spec.crc_field().len();
            &&& (f >> 6) & 3 == (if spec.dts_90k is Some { 3u8 } else if spec.pts_90k is Some {
                2u8
            } else {
                0u8
            })
            &&& (f & 0x20 != 0) == spec.escr_27mhz is Some
            &&& (f & 0x10 != 0) == spec.es_rate_50bps is Some
            &&& (f & 0x08 != 0) == spec.trick_mode is Some
            &&& (f & 0x04 != 0) == spec.additional_copy_info is Some
            &&& (f & 0x02 != 0) == spec.previous_pes_packet_crc is Some
            &&& (f & 0x01 != 0) == spec.pes_extension is Some
            &&& escr_at(f) == o1
            &&& es_rate_at(f) == o2
            &&& trick_mode_at(f) == o3
            &&& copy_info_at(f) == o4
            &&& crc_at(f) == o5
            &&& pes_extension_at(f) == o6
        }),
{
    lemma_flags2_bits(
        spec.pts_90k is Some,
        spec.dts_90k is Some,
        spec.escr_27mhz is Some,
        spec.es_rate_50bps is Some,
        spec.trick_mode is Some,
        spec.additional_copy_info is Some,
        spec.previous_pes_packet_crc is Some,
        spec.pes_extension is Some,
    );
}

/// Where the optional fields stand in their area.
proof fn lemma_field_places(spec: PesHeaderSpec, o: Seq<u8>)
    requires
        o == spec.optional_fields(),
    ensures
        ({
            let o1 = spec.timestamp_bytes().len() as int;
            let o2 = o1 + spec.escr_field().len();
            let o3 = o2 + spec.rate_field().len();
            let o4 = o3 + spec.trick_mode_field().len();
            let o5 = o4 + spec.copy_info_field().len();
            let o6 = o5 + spec.crc_field().len();
            &&& o.len() == o6 + spec.extension_field().len()
            &&& o.subrange(0, o1) == spec.timestamp_bytes()
            &&& o.subrange(o1, o2) == spec.escr_field()
            &&& o.subrange(o2, o3) == spec.rate_field()
            &&& o.subrange(o3, o4) == spec.trick_mode_field()
            &&& o.subrange(o4, o5) == spec.copy_info_field()
            &&& o.subrange(o5, o6) == spec.crc_field()
            &&& o.subrange(o6, o.len() as int) == spec.extension_field()
        }),
{
    lemma_places(
        spec.timestamp_bytes(),
        spec.escr_field(),
        spec.rate_field(),
        spec.trick_mode_field(),
        spec.copy_info_field(),
        spec.crc_field(),
        spec.extension_field(),
    );
}

proof fn lemma_places(
    a: Seq<u8>,
    b: Seq<u8>,
    c: Seq<u8>,
    d: Seq<u8>,
    e: Seq<u8>,
    f: Seq<u8>,
    g: Seq<u8>,
)
    ensures
        ({
            let w = a + b + c + d + e + f + g;
            let o1 = a.len() as int;
            let o2 = o1 + b.len();
            let o3 = o2 + c.len();
            let o4 = o3 + d.len();
            let o5 = o4 + e.len();
            let o6 = o5 + f.len();
            &&& w.len() == o6 + g.len()
            &&& w.subrange(0, o1) == a
            &&& w.subrange(o1, o2) == b
            &&& w.subrange(o2, o3) == c
            &&& w.subrange(o3, o4) == d
            &&& w.subrange(o4, o5) == e
            &&& w.subrange(o5, o6) == f
            &&& w.subrange(o6, w.len() as int) == g
        }),
{
    lemma_concat_parts(a, b, c, d, e, f);
    let p = a + b + c + d + e + f;
    let w = p + g;
    let o1 = a.len() as int;
    let o2 = o1 + b.len();
    let o3 = o2 + c.len();
    let o4 = o3 + d.len();
    let o5 = o4 + e.len();
    let o6 = o5 + f.len();
    assert(w.subrange(0, o1) =~= p.subrange(0, o1));
    assert(w.subrange(o1, o2) =~= p.subrange(o1, o2));
    assert(w.subrange(o2, o3) =~= p.subrange(o2, o3));
    assert(w.subrange(o3, o4) =~= p.subrange(o3, o4));
    assert(w.subrange(o4, o5) =~= p.subrange(o4, o5));
    assert(w.subrange(o5, o6) =~= p.subrange(o5, o6));
    assert(w.subrange(o6, w.len() as int) =~= g);
}

proof fn lemma_timestamps_read_back(spec: PesHeaderSpec, o: Seq<u8>)
    requires
        spec.field_error() is None,
        spec.timestamp_bytes().len() <= o.len(),
        o.subrange(0, spec.timestamp_bytes().len() as int) == spec.timestamp_bytes(),
    ensures
        spec.pts_90k matches Some(pts) ==> ts33_at(o, 0) == pts,
        spec.dts_90k matches Some(dts) ==> ts33_at(o, 5) == dts,
{
    let ts = spec.timestamp_bytes();
    if spec.pts_90k is Some {
        let pts = spec.pts_90k->0;
        if spec.dts_90k is Some {
            let dts = spec.dts_90k->0;
            let a = ts33_bytes(3, pts);
            let b = ts33_bytes(1, dts);
            assert(a.len() == 5 && b.len() == 5);
            assert(o.subrange(0, 5) =~= (a + b).subrange(0, 5));
            assert((a + b).subrange(0, 5) =~= a);
            assert(o.subrange(5, 10) =~= (a + b).subrange(5, 10));
            assert((a + b).subrange(5, 10) =~= b);
            lemma_ts33_round_trip(3, pts, o, 0);
            lemma_ts33_round_trip(1, dts, o, 5);
        } else {
            lemma_ts33_round_trip(2, pts, o, 0);
        }
    }
}

proof fn lemma_rate_read_back(rate: u32, o: Seq<u8>, at: int)
    requires
        rate <= 0x3F_FFFF,
        0 <= at,
        at + 3 <= o.len(),
        o.subrange(at, at + 3) == es_rate_bytes(rate),
    ensures
        es_rate_value(o, at) == rate,
{
    lemma_small_field_bits(rate, 0);
    let w = o.subrange(at, at + 3);
    assert(o[at] == w[0] && o[at + 1] == w[1] && o[at + 2] == w[2]);
}

/// Each optional field is read back.
proof fn lemma_optional_fields_read_back(spec: PesHeaderSpec, o: Seq<u8>)
    requires
        spec.field_error() is None,
        o == spec.optional_fields(),
    ensures
        ({
            let f = spec.flags2();
            &&& optional_fields_error(f, o) is None
            &&& spec.pts_90k matches Some(pts) ==> ts33_at(o, 0) == pts
            &&& spec.dts_90k matches Some(dts) ==> ts33_at(o, 5) == dts
            &&& spec.escr_27mhz matches Some(escr) ==> escr_value(o, escr_at(f)) == escr
            &&& spec.es_rate_50bps matches Some(rate) ==> es_rate_value(o, es_rate_at(f)) == rate
            &&& spec.trick_mode matches Some(m) ==> o[trick_mode_at(f)] == m.byte()
            &&& spec.additional_copy_info matches Some(info) ==> o[copy_info_at(f)] & 0x7F == info
            &&& spec.previous_pes_packet_crc matches Some(crc) ==> be16_at(o, crc_at(f)) == crc
            &&& spec.pes_extension matches Some(x) ==> pes_extension_value(
                o.subrange(pes_extension_at(f), o.len() as int),
            ) == x@
        }),
{
    lemma_field_offsets(spec);
    lemma_field_places(spec, o);
    lemma_timestamps_read_back(spec, o);
    let o1 = spec.timestamp_bytes().len() as int;
    let o2 = o1 + spec.escr_field().len();
    let o3 = o2 + spec.rate_field().len();
    let o4 = o3 + spec.trick_mode_field().len();
    let o5 = o4 + spec.copy_info_field().len();
    let o6 = o5 + spec.crc_field().len();
    if spec.escr_27mhz is Some {
        assert(o2 == o1 + 6);
        lemma_escr_round_trip(spec.escr_27mhz->0, o, o1);
    }
    if spec.es_rate_50bps is Some {
        assert(o3 == o2 + 3);
        lemma_rate_read_back(spec.es_rate_50bps->0, o, o2);
    }
    if spec.trick_mode is Some {
        assert(o[o3] == o.subrange(o3, o4)[0]);
    }
    if spec.additional_copy_info is Some {
        assert(o[o4] == o.subrange(o4, o5)[0]);
        lemma_small_field_bits(0, spec.additional_copy_info->0);
    }
    if spec.previous_pes_packet_crc is Some {
        assert(o6 == o5 + 2);
        lemma_be16_round_trip(spec.previous_pes_packet_crc->0, o, o5);
    }
    if spec.pes_extension is Some {
        let x = spec.pes_extension->0;
        if x.private_data is Some {
            assert(x.private_data->0@.len() == 16);
        }
        lemma_pes_extension_round_trip(x@, o.subrange(o6, o.len() as int));
    }
}

/// The parts of an encoded packet with the optional header.
proof fn lemma_encoded_layout(h: Seq<u8>, f1: u8, f2: u8, o: Seq<u8>, payload: Seq<u8>)
    requires
        h.len() == 6,
        o.len() <= 255,
    ensures
        ({
            let b = h + seq![f1, f2, o.len() as u8] + o + payload;
            &&& b.len() == 9 + o.len() + payload.len()
            &&& b.subrange(0, 6) == h
            &&& b[6] == f1
            &&& b[7] == f2
            &&& b[8] == o.len()
            &&& b.subrange(9, 9 + o.len() as int) == o
            &&& b.subrange(9 + o.len() as int, b.len() as int) == payload
        }),
{
    let b = h + seq![f1, f2, o.len() as u8] + o + payload;
    assert(b.subrange(0, 6) =~= h);
    assert(b.subrange(9, 9 + o.len() as int) =~= o);
    assert(b.subrange(9 + o.len() as int, b.len() as int) =~= payload);
}

proof fn lemma_header_reads_back(spec: PesHeaderSpec, o: Seq<u8>, payload: Seq<u8>, b: Seq<u8>)
    requires
        carries_optional_header(spec.stream_id),
        spec.field_error() is None,
        o == spec.optional_fields(),
        o.len() <= 255,
        b.len() == 9 + o.len() + payload.len(),
        b[0] == 0,
        b[1] == 0,
        b[2] == 1,
        b[3] == spec.stream_id,
        b[6] == spec.flags1(),
        b[7] == spec.flags2(),
        b[8] == o.len(),
        b.subrange(9, 9 + o.len() as int) == o,
        b.subrange(9 + o.len() as int, b.len() as int) == payload,
    ensures
        pes_error(b) is None,
        pes_value(b) == packet_of(spec, payload),
{
    lemma_flags1_bits(
        spec.pes_scrambling_control,
        spec.pes_priority,
        spec.data_alignment_indicator,
        spec.copyright,
        spec.original_or_copy,
    );
    lemma_field_offsets(spec);
    lemma_optional_fields_read_back(spec, o);
    let v = pes_value(b);
    let p = packet_of(spec, payload);
    assert(v.pts_90k == p.pts_90k);
    assert(v.dts_90k == p.dts_90k);
    assert(v.escr_27mhz == p.escr_27mhz);
    assert(v.es_rate_50bps == p.es_rate_50bps);
    assert(v.dsm_trick_mode == p.dsm_trick_mode);
    assert(v.additional_copy_info == p.additional_copy_info);
    assert(v.previous_pes_packet_crc == p.previous_pes_packet_crc);
    assert(v.pes_extension == p.pes_extension);
    assert(v.pes_scrambling_control == p.pes_scrambling_control);
}

/// What [`PesHeaderSpec::encode`] writes parses back to the same header fields
/// and payload; a trick mode comes back as its byte.
pub proof fn lemma_pes_round_trip(spec: PesHeaderSpec, payload: Seq<u8>)
    requires
        spec.error(payload.len() as int) is None,
    ensures
        parse_pes_spec(spec.encoded(payload)) == Ok::<PesPacketView, crate::error::TsError>(
            packet_of(spec, payload),
        ),
{
    let b = spec.encoded(payload);
    if !carries_optional_header(spec.stream_id) {
        assert(b.subrange(6, b.len() as int) =~= payload);
    } else {
        lemma_encoded_with_header(spec, payload);
        lemma_header_reads_back(spec, spec.optional_fields(), payload, b);
    }
}

proof fn lemma_encoded_with_header(spec: PesHeaderSpec, payload: Seq<u8>)
    requires
        carries_optional_header(spec.stream_id),
        spec.optional_fields().len() <= 255,
    ensures
        ({
            let b = spec.encoded(payload);
            let o = spec.optional_fields();
            &&& b.len() == 9 + o.len() + payload.len()
            &&& b[0] == 0
            &&& b[1] == 0
            &&& b[2] == 1
            &&& b[3] == spec.stream_id
            &&& b[6] == spec.flags1()
            &&& b[7] == spec.flags2()
            &&& b[8] == o.len()
            &&& b.subrange(9, 9 + o.len() as int) == o
            &&& b.subrange(9 + o.len() as int, b.len() as int) == payload
        }),
{
    let b = spec.encoded(payload);
    let o = spec.optional_fields();
    let length = if spec.unbounded_length { 0u16 } else { (3 + o.len() + payload.len()) as u16 };
    let h = spec.fixed_header(length);
    lemma_encoded_layout(h, spec.flags1(), spec.flags2(), o, payload);
    assert(b[0] == b.subrange(0, 6)[0] && b[1] == b.subrange(0, 6)[1]);
    assert(b[2] == b.subrange(0, 6)[2] && b[3] == b.subrange(0, 6)[3]);
}

} // verus!
