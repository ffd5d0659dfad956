//! Laws between the write side and the read side of the adaptation field.
use vstd::prelude::*;

use crate::bytes::lemma_concat_parts;
use crate::packet::encode::{
    clock_reference_bytes, ts33_bytes, AdaptationFieldExtensionSpec, AdaptationFieldSpec,
};
use crate::packet::parse::{
    adaptation_field_error, adaptation_field_value, af_extension_at, af_opcr_at, af_private_at,
    af_splice_at, clock_base_at, clock_extension_at, ext_rate_at, ext_splice_at, extension_error,
    extension_value, has_adaptation_field, parse_packet_spec, payload_at, ts33_at,
    AdaptationFieldExtension, AdaptationFieldView,
};

verus! {

/// A clock reference whose parts fit 33 and 9 bits is read back as written.
pub proof fn lemma_clock_reference_round_trip(base: u64, ext: u16, raw: Seq<u8>, at: int)
    requires
        base <= 0x1_FFFF_FFFF,
        ext <= 0x1FF,
        0 <= at,
        at + 6 <= raw.len(),
        raw.subrange(at, at + 6) == clock_reference_bytes(base, ext),
    ensures
        clock_base_at(raw, at) == base,
        clock_extension_at(raw, at) == ext,
{
    let w = raw.subrange(at, at + 6);
    assert(raw[at] == w[0] && raw[at + 1] == w[1] && raw[at + 2] == w[2]);
    assert(raw[at + 3] == w[3] && raw[at + 4] == w[4] && raw[at + 5] == w[5]);
    lemma_clock_reference_bits(base, ext);
}

pub(crate) proof fn lemma_clock_reference_bits(base: u64, ext: u16)
    by (bit_vector)
    requires
        base <= 0x1_FFFF_FFFF,
        ext <= 0x1FF,
    ensures
        ({
            let b = base & 0x1_FFFF_FFFF;
            let e = ext & 0x1FF;
            let w0 = ((b >> 25) & 0xFF) as u8;
            let w1 = ((b >> 17) & 0xFF) as u8;
            let w2 = ((b >> 9) & 0xFF) as u8;
            let w3 = ((b >> 1) & 0xFF) as u8;
            let w4 = (((b & 1) as u8) << 7) | 0x7E | (((e >> 8) & 1) as u8);
            let w5 = (e & 0xFF) as u8;
            &&& (((w0 as u64) << 25) | ((w1 as u64) << 17) | ((w2 as u64) << 9) | ((w3 as u64) << 1)
                | (((w4 >> 7) & 1) as u64)) == base
            &&& ((((w4 & 1) as u16) << 8) | (w5 as u16)) == ext
            &&& (w4 >> 1) & 0x3F == 63
        }),
{
}

/// A 33-bit timestamp is read back as written, whatever 4-bit prefix stands
/// before it; so is the prefix.
pub proof fn lemma_ts33_round_trip(prefix: u8, ts: u64, raw: Seq<u8>, at: int)
    requires
        prefix <= 0xF,
        ts <= 0x1_FFFF_FFFF,
        0 <= at,
        at + 5 <= raw.len(),
        raw.subrange(at, at + 5) == ts33_bytes(prefix, ts),
    ensures
        ts33_at(raw, at) == ts,
        (raw[at] >> 4) & 0x0F == prefix,
        raw[at] >> 4 == prefix,
{
    let w = raw.subrange(at, at + 5);
    assert(raw[at] == w[0] && raw[at + 1] == w[1] && raw[at + 2] == w[2]);
    assert(raw[at + 3] == w[3] && raw[at + 4] == w[4]);
    lemma_ts33_bits(prefix, ts);
}

pub(crate) proof fn lemma_ts33_bits(prefix: u8, ts: u64)
    by (bit_vector)
    requires
        prefix <= 0xF,
        ts <= 0x1_FFFF_FFFF,
    ensures
        ({
            let w0 = (prefix << 4) | ((((ts >> 30) & 7) as u8) << 1) | 1;
            let w1 = ((ts >> 22) & 0xFF) as u8;
            let w2 = ((((ts >> 15) & 0x7F) as u8) << 1) | 1;
            let w3 = ((ts >> 7) & 0xFF) as u8;
            let w4 = (((ts & 0x7F) as u8) << 1) | 1;
            &&& (((((w0 >> 1) & 0x07) as u64) << 30) | ((w1 as u64) << 22) | ((((w2 >> 1) & 0x7F)
                as u64) << 15) | ((w3 as u64) << 7) | (((w4 >> 1) & 0x7F) as u64)) == ts
            &&& (w0 >> 4) & 0x0F == prefix
            &&& w0 >> 4 == prefix
            &&& w0 & 1 == 1 && w2 & 1 == 1 && w4 & 1 == 1
        }),
{
}

proof fn lemma_flag_bits(d: bool, r: bool, p: bool, c: bool, o: bool, s: bool, t: bool, e: bool)
    by (bit_vector)
    ensures
        ({
            let f = (if d { 0x80u8 } else { 0 }) | (if r { 0x40u8 } else { 0 }) | (if p {
                0x20u8
            } else {
                0
            }) | (if c { 0x10u8 } else { 0 }) | (if o { 0x08u8 } else { 0 }) | (if s {
                0x04u8
            } else {
                0
            }) | (if t { 0x02u8 } else { 0 }) | (if e { 0x01u8 } else { 0 });
            &&& (f & 0x80 != 0) == d
            &&& (f & 0x40 != 0) == r
            &&& (f & 0x20 != 0) == p
            &&& (f & 0x10 != 0) == c
            &&& (f & 0x08 != 0) == o
            &&& (f & 0x04 != 0) == s
            &&& (f & 0x02 != 0) == t
            &&& (f & 0x01 != 0) == e
        }),
{
}

pub(crate) proof fn lemma_extension_flag_bits(l: bool, r: bool, s: bool)
    by (bit_vector)
    ensures
        ({
            let f = 0x1Fu8 | (if l { 0x80u8 } else { 0 }) | (if r { 0x40u8 } else { 0 }) | (if s {
                0x20u8
            } else {
                0
            });
            &&& (f & 0x80 != 0) == l
            &&& (f & 0x40 != 0) == r
            &&& (f & 0x20 != 0) == s
            &&& f & 0x1F == 31
        }),
{
}

pub(crate) proof fn lemma_extension_field_bits(valid: bool, offset: u16, rate: u32)
    by (bit_vector)
    requires
        offset <= 0x7FFF,
        rate <= 0x3F_FFFF,
    ensures
        ({
            let l0 = (if valid { 0x80u8 } else { 0 }) | (((offset >> 8) & 0x7F) as u8);
            let l1 = (offset & 0xFF) as u8;
            let r0 = 0xC0u8 | (((rate >> 16) & 0x3F) as u8);
            let r1 = ((rate >> 8) & 0xFF) as u8;
            let r2 = (rate & 0xFF) as u8;
            &&& (l0 & 0x80 != 0) == valid
            &&& ((((l0 & 0x7F) as u16) << 8) | (l1 as u16)) == offset
            &&& ((((r0 & 0x3F) as u32) << 16) | ((r1 as u32) << 8) | (r2 as u32)) == rate
            &&& r0 >= 192
        }),
{
}

proof fn lemma_countdown_bits(c: i8)
    by (bit_vector)
    ensures
        (c as u8) as i8 == c,
{
}

/// The decoded extension carries the sub-fields of `ext`.
pub open spec fn extension_agrees(
    v: AdaptationFieldExtension,
    ext: AdaptationFieldExtensionSpec,
) -> bool {
    &&& v.length == ext.body().len()
    &&& v.ltw_flag == ext.ltw is Some
    &&& v.piecewise_rate_flag == ext.piecewise_rate is Some
    &&& v.seamless_splice_flag == ext.seamless_splice is Some
    &&& match ext.ltw {
        Some((valid, offset)) => v.ltw_valid_flag == Some(valid) && v.ltw_offset == Some(offset),
        None => v.ltw_valid_flag is None && v.ltw_offset is None,
    }
    &&& v.piecewise_rate == ext.piecewise_rate
    &&& match ext.seamless_splice {
        Some((splice_type, dts)) => v.splice_type == Some(splice_type) && v.dts_next_au == Some(
            dts,
        ),
        None => v.splice_type is None && v.dts_next_au is None,
    }
}

/// The decoded field carries the flags and optional fields of `spec`.
pub open spec fn field_agrees(v: AdaptationFieldView, spec: AdaptationFieldSpec) -> bool {
    &&& v.discontinuity_indicator == spec.discontinuity_indicator
    &&& v.random_access_indicator == spec.random_access_indicator
    &&& v.elementary_stream_priority_indicator == spec.elementary_stream_priority_indicator
    &&& v.pcr_flag == spec.pcr is Some
    &&& v.opcr_flag == spec.opcr is Some
    &&& v.splicing_point_flag == spec.splice_countdown is Some
    &&& v.transport_private_data_flag == spec.transport_private_data is Some
    &&& v.adaptation_field_extension_flag == spec.extension is Some
    &&& match spec.pcr {
        Some((base, ext)) => v.pcr_base == Some(base) && v.pcr_extension == Some(ext),
        None => v.pcr_base is None && v.pcr_extension is None,
    }
    &&& match spec.opcr {
        Some((base, ext)) => v.opcr_base == Some(base) && v.opcr_extension == Some(ext),
        None => v.opcr_base is None && v.opcr_extension is None,
    }
    &&& v.splice_countdown == spec.splice_countdown
    &&& match spec.transport_private_data {
        Some(data) => v.transport_private_data == Some(data@),
        None => v.transport_private_data is None,
    }
    &&& match spec.extension {
        Some(ext) => v.adaptation_field_extension is Some && extension_agrees(
            v.adaptation_field_extension->0,
            ext,
        ),
        None => v.adaptation_field_extension is None,
    }
}

proof fn lemma_extension_round_trip(
    ext: AdaptationFieldExtensionSpec,
    has_countdown: bool,
    raw: Seq<u8>,
    at: int,
)
    requires
        ext.error(has_countdown) is None,
        0 <= at,
        at + ext.bytes().len() <= raw.len(),
        raw.subrange(at, at + ext.bytes().len()) == ext.bytes(),
    ensures
        extension_error(raw, at) is None,
        extension_agrees(extension_value(raw, at), ext),
{
    let w = ext.bytes();
    let body = ext.body();
    assert forall|i: int| 0 <= i < w.len() implies raw[at + i] == w[i] by {
        assert(raw.subrange(at, at + w.len())[i] == w[i]);
    }
    lemma_extension_flag_bits(ext.ltw is Some, ext.piecewise_rate is Some, ext.seamless_splice is Some);
    let (valid, offset) = match ext.ltw {
        Some(p) => p,
        None => (false, 0u16),
    };
    let rate = match ext.piecewise_rate {
        Some(r) => r,
        None => 0u32,
    };
    lemma_extension_field_bits(valid, offset, rate);
    let l = ext.ltw_bytes();
    let r = ext.rate_bytes();
    let s = ext.splice_bytes();
    assert(body.len() == 1 + l.len() + r.len() + s.len());
    assert(body.len() <= 11);
    assert(raw[at + 0] == w[0]);
    assert(raw[at + 1] == w[1]);
    assert(w[1] == body[0]);
    assert(ext_rate_at(raw, at) == at + 2 + l.len());
    assert(ext_splice_at(raw, at) == at + 2 + l.len() + r.len());
    if ext.ltw is Some {
        assert(raw[at + 2] == w[2] && w[2] == l[0]);
        assert(raw[at + 3] == w[3] && w[3] == l[1]);
    }
    if ext.piecewise_rate is Some {
        let k = 2 + l.len() as int;
        assert(raw[at + k] == w[k] && w[k] == r[0]);
        assert(raw[at + (k + 1)] == w[k + 1] && w[k + 1] == r[1]);
        assert(raw[at + (k + 2)] == w[k + 2] && w[k + 2] == r[2]);
    }
    if ext.seamless_splice is Some {
        let k = 2 + l.len() as int + r.len() as int;
        let (splice_type, dts) = ext.seamless_splice->0;
        assert(raw.subrange(at + k, at + k + 5) =~= s) by {
            assert forall|i: int| 0 <= i < 5 implies raw[at + k + i] == s[i] by {
                assert(raw[at + (k + i)] == w[k + i] && w[k + i] == s[i]);
            }
        }
        lemma_ts33_round_trip(splice_type, dts, raw, at + k);
    }
}

/// Where the parts of an encoded field with content stand.
proof fn lemma_encoded_parts(spec: AdaptationFieldSpec, w: int)
    requires
        spec.field_error() is None,
        1 + spec.body().len() <= 184,
        w <= 184,
        !(spec.lacks_fields() && w <= 1),
    ensures
        ({
            let raw = spec.encoded(w);
            let o1 = 2 + spec.pcr_bytes().len() as int;
            let o2 = o1 + spec.opcr_bytes().len();
            let o3 = o2 + spec.countdown_bytes().len();
            let o4 = o3 + spec.private_bytes().len();
            let o5 = o4 + spec.extension_bytes().len();
            &&& o5 <= raw.len() <= 184
            &&& raw.len() >= w
            &&& raw[0] == raw.len() - 1
            &&& raw[1] == spec.flags()
            &&& raw.subrange(2, o1) == spec.pcr_bytes()
            &&& raw.subrange(o1, o2) == spec.opcr_bytes()
            &&& raw.subrange(o2, o3) == spec.countdown_bytes()
            &&& raw.subrange(o3, o4) == spec.private_bytes()
            &&& raw.subrange(o4, o5) == spec.extension_bytes()
        }),
{
    let raw = spec.encoded(w);
    let body = spec.body();
    let f = seq![spec.flags()];
    let c = spec.pcr_bytes();
    let o = spec.opcr_bytes();
    let s = spec.countdown_bytes();
    let t = spec.private_bytes();
    let e = spec.extension_bytes();
    lemma_concat_parts(f, c, o, s, t, e);
    let o1 = 1 + c.len() as int;
    let o2 = o1 + o.len();
    let o3 = o2 + s.len();
    let o4 = o3 + t.len();
    let o5 = o4 + e.len();
    assert(raw.subrange(1, 1 + body.len() as int) =~= body);
    assert(body.subrange(0, 1)[0] == f[0]);
    assert(raw[1] == raw.subrange(1, 1 + body.len() as int)[0]);
    assert(raw.subrange(2, 1 + o1) =~= body.subrange(1, o1));
    assert(raw.subrange(1 + o1, 1 + o2) =~= body.subrange(o1, o2));
    assert(raw.subrange(1 + o2, 1 + o3) =~= body.subrange(o2, o3));
    assert(raw.subrange(1 + o3, 1 + o4) =~= body.subrange(o3, o4));
    assert(raw.subrange(1 + o4, 1 + o5) =~= body.subrange(o4, o5));
}

/// What [`AdaptationFieldSpec::encode`] writes is decoded without error to the
/// same flags and fields; its length byte counts the bytes after it, and it is
/// as long as was asked for.
pub proof fn lemma_adaptation_field_round_trip(spec: AdaptationFieldSpec, want: Option<usize>)
    requires
        spec.error(want) is None,
    ensures
        ({
            let raw = spec.encoded(crate::packet::encode::wanted(want));
            &&& adaptation_field_error(raw) is None
            &&& field_agrees(adaptation_field_value(raw), spec)
            &&& 1 <= raw.len() <= 184
            &&& raw.len() >= crate::packet::encode::wanted(want)
            &&& raw[0] == raw.len() - 1
        }),
{
    let w = crate::packet::encode::wanted(want);
    let raw = spec.encoded(w);
    if !(spec.lacks_fields() && w <= 1) {
        lemma_encoded_parts(spec, w);
        lemma_encoded_field_reads_back(spec, raw);
    }
}

proof fn lemma_encoded_field_reads_back(spec: AdaptationFieldSpec, raw: Seq<u8>)
    requires
        spec.field_error() is None,
        ({
            let o1 = 2 + spec.pcr_bytes().len() as int;
            let o2 = o1 + spec.opcr_bytes().len();
            let o3 = o2 + spec.countdown_bytes().len();
            let o4 = o3 + spec.private_bytes().len();
            let o5 = o4 + spec.extension_bytes().len();
            &&& o5 <= raw.len() <= 184
            &&& raw[0] == raw.len() - 1
            &&& raw[1] == spec.flags()
            &&& raw.subrange(2, o1) == spec.pcr_bytes()
            &&& raw.subrange(o1, o2) == spec.opcr_bytes()
            &&& raw.subrange(o2, o3) == spec.countdown_bytes()
            &&& raw.subrange(o3, o4) == spec.private_bytes()
            &&& raw.subrange(o4, o5) == spec.extension_bytes()
        }),
    ensures
        adaptation_field_error(raw) is None,
        field_agrees(adaptation_field_value(raw), spec),
{
    lemma_flag_bits(
        spec.discontinuity_indicator,
        spec.random_access_indicator,
        spec.elementary_stream_priority_indicator,
        spec.pcr is Some,
        spec.opcr is Some,
        spec.splice_countdown is Some,
        spec.transport_private_data is Some,
        spec.extension is Some,
    );
    let o1 = 2 + spec.pcr_bytes().len() as int;
    let o2 = o1 + spec.opcr_bytes().len();
    let o3 = o2 + spec.countdown_bytes().len();
    let o4 = o3 + spec.private_bytes().len();
    let o5 = o4 + spec.extension_bytes().len();
    assert(af_opcr_at(raw) == o1);
    assert(af_splice_at(raw) == o2);
    assert(af_private_at(raw) == o3);
    if spec.pcr is Some {
        let (base, ext) = spec.pcr->0;
        lemma_clock_reference_round_trip(base, ext, raw, 2);
    }
    if spec.opcr is Some {
        let (base, ext) = spec.opcr->0;
        lemma_clock_reference_round_trip(base, ext, raw, o1);
    }
    if spec.splice_countdown is Some {
        assert(raw[o2] == raw.subrange(o2, o3)[0]);
        lemma_countdown_bits(spec.splice_countdown->0);
    }
    if spec.transport_private_data is Some {
        let data = spec.transport_private_data->0@;
        let t = raw.subrange(o3, o4);
        assert(raw[o3] == t[0]);
        assert(raw.subrange(o3 + 1, o3 + 1 + data.len()) =~= data) by {
            assert forall|i: int| 0 <= i < data.len() implies raw[o3 + 1 + i] == data[i] by {
                assert(raw[o3 + 1 + i] == t[1 + i]);
            }
        }
    }
    assert(af_extension_at(raw) == o4);
    if spec.extension is Some {
        lemma_extension_round_trip(spec.extension->0, spec.splice_countdown is Some, raw, o4);
    }
}

/// A packet whose bytes after the header start with an encoded adaptation field
/// parses, and its adaptation field carries what was encoded.
pub proof fn lemma_packet_carries_adaptation_field(
    b: Seq<u8>,
    spec: AdaptationFieldSpec,
    want: Option<usize>,
)
    requires
        spec.error(want) is None,
        b.len() == 188,
        b[0] == 0x47,
        has_adaptation_field(b),
        ({
            let raw = spec.encoded(crate::packet::encode::wanted(want));
            b.subrange(4, 4 + raw.len() as int) == raw
        }),
    ensures
        parse_packet_spec(b) is Ok,
        parse_packet_spec(b)->Ok_0.adaptation_field is Some,
        field_agrees(parse_packet_spec(b)->Ok_0.adaptation_field->0, spec),
        payload_at(b) == 4 + spec.encoded(crate::packet::encode::wanted(want)).len(),
{
    lemma_adaptation_field_round_trip(spec, want);
    let raw = spec.encoded(crate::packet::encode::wanted(want));
    assert(b[4] == b.subrange(4, 4 + raw.len() as int)[0]);
}

} // verus!
