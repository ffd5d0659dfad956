//! What the bytes of a packet mean, bit by bit.
use vstd::prelude::*;

use crate::bits::{
    bit, lemma_byte_bits, lemma_joined_bytes, lemma_joined_clock, lemma_joined_timestamp,
};
use crate::error::TsError;
use crate::packet::encode::{
    clock_reference_bytes, ts33_bytes, AdaptationFieldExtensionSpec, AdaptationFieldSpec,
};
use crate::packet::layout::{detected_layout, TsPacketLayout};
use crate::packet::parse::{
    adaptation_field_error, adaptation_field_value, clock_base_at, clock_extension_at,
    extension_error, extension_value, packet_pid, parse_adaptation_field_spec, parse_packet_spec,
    ts33_at, AdaptationField, TsPacket,
};
use crate::packet::round_trip::{
    lemma_clock_reference_bits, lemma_extension_field_bits, lemma_extension_flag_bits,
    lemma_ts33_bits,
};

verus! {

/// A packet has 188 bytes, the first of which is 0x47; anything else is refused.
pub proof fn lemma_packet_refused(b: Seq<u8>)
    requires
        b.len() <= usize::MAX,
    ensures
        b.len() != 188 ==> parse_packet_spec(b) is Err && parse_packet_spec(b)->Err_0
            == (TsError::Truncated { what: "TS packet", have: b.len() as usize, need: 188 }),
        b.len() == 188 && b[0] != 0x47 ==> parse_packet_spec(b) is Err && parse_packet_spec(
            b,
        )->Err_0 == TsError::BadSyncByte(b[0]),
{
}

/// The header of a packet, put together from its fields, is read as these fields: after
/// the sync byte the bits for an error, a start and priority, 13 bits of PID, two bits
/// of scrambling, a bit each for an adaptation field and a payload, and the counter.
pub proof fn lemma_packet_header(
    b: Seq<u8>,
    error: bool,
    start: bool,
    priority: bool,
    pid: u16,
    scrambling: u8,
    has_field: bool,
    has_payload: bool,
    cc: u8,
)
    requires
        b.len() == 188,
        pid < 8192,
        scrambling < 4,
        cc < 16,
        b[0] == 0x47,
        b[1] == 128 * bit(error) + 64 * bit(start) + 32 * bit(priority) + pid / 256,
        b[2] == pid % 256,
        b[3] == 64 * scrambling + 32 * bit(has_field) + 16 * bit(has_payload) + cc,
    ensures
        !has_field ==> parse_packet_spec(b) is Ok,
        has_field ==> (parse_packet_spec(b) is Ok <==> b[4] <= 183 && adaptation_field_error(
            b.subrange(4, 5 + b[4]),
        ) is None),
        parse_packet_spec(b) matches Ok(p) ==> {
            &&& p.transport_error == error
            &&& p.payload_unit_start == start
            &&& p.transport_priority == priority
            &&& p.pid == pid
            &&& p.transport_scrambling_control == scrambling
            &&& p.continuity_counter == cc
            &&& p.adaptation_field is Some == has_field
            &&& has_field ==> p.adaptation_field == Some(
                adaptation_field_value(b.subrange(4, 5 + b[4])),
            )
            &&& p.payload == if !has_payload {
                Seq::<u8>::empty()
            } else if has_field {
                b.skip(5 + b[4])
            } else {
                b.skip(4)
            }
            &&& p.bytes == b
        },
{
    lemma_second_byte(b[1], error, start, priority, pid as int / 256);
    lemma_fourth_byte(b[3], scrambling, has_field, has_payload, cc);
    assert(packet_pid(b) == pid) by {
        lemma_joined_bytes(b[1], b[2], 0, 0);
    }
    assert(b.subrange(4, 188) =~= b.skip(4));
    if has_field && b[4] <= 183 {
        assert(b.subrange(5 + b[4], 188) =~= b.skip(5 + b[4]));
    }
}

proof fn lemma_second_byte(b: u8, error: bool, start: bool, priority: bool, high: int)
    requires
        0 <= high < 32,
        b == 128 * bit(error) + 64 * bit(start) + 32 * bit(priority) + high,
    ensures
        (b & 0x80 != 0) == error,
        (b & 0x40 != 0) == start,
        (b & 0x20 != 0) == priority,
        b % 32 == high,
{
    lemma_byte_bits(b);
    assert(b / 32 == 4 * bit(error) + 2 * bit(start) + bit(priority));
    assert(b as int / 64 == 2 * bit(error) + bit(start));
}

proof fn lemma_fourth_byte(b: u8, scrambling: u8, has_field: bool, has_payload: bool, cc: u8)
    requires
        scrambling < 4,
        cc < 16,
        b == 64 * scrambling + 32 * bit(has_field) + 16 * bit(has_payload) + cc,
    ensures
        (b >> 6) & 3 == scrambling,
        (((b >> 4) & 3) & 2 != 0) == has_field,
        (((b >> 4) & 3) & 1 != 0) == has_payload,
        b & 0x0F == cc,
{
    lemma_byte_bits(b);
    assert(b as int / 16 == 4 * scrambling + 2 * bit(has_field) + bit(has_payload));
    assert(b as int / 32 == 2 * scrambling + bit(has_field));
}

/// The flags of an adaptation field, from the first bit on, and where the fields stand
/// that they announce: one behind the other, a clock reference in six bytes, another in
/// six, the countdown in one, private data behind their length, and the extension.
pub proof fn lemma_adaptation_field_places(
    raw: Seq<u8>,
    discontinuity: bool,
    random_access: bool,
    priority: bool,
    pcr: bool,
    opcr: bool,
    splicing: bool,
    private: bool,
    extension: bool,
)
    requires
        raw.len() > 1,
        raw[0] > 0,
        raw[1] == 128 * bit(discontinuity) + 64 * bit(random_access) + 32 * bit(priority) + 16
            * bit(pcr) + 8 * bit(opcr) + 4 * bit(splicing) + 2 * bit(private) + bit(extension),
    ensures
        ({
            let v = adaptation_field_value(raw);
            let o = 2 + 6 * bit(pcr);
            let c = o + 6 * bit(opcr);
            let p = c + bit(splicing);
            let x = p + (if private { 1 + raw[p] as int } else { 0 });
            &&& v.length == raw[0]
            &&& v.raw == raw
            &&& v.discontinuity_indicator == discontinuity
            &&& v.random_access_indicator == random_access
            &&& v.elementary_stream_priority_indicator == priority
            &&& v.pcr_flag == pcr
            &&& v.opcr_flag == opcr
            &&& v.splicing_point_flag == splicing
            &&& v.transport_private_data_flag == private
            &&& v.adaptation_field_extension_flag == extension
            &&& v.pcr_base == if pcr { Some(clock_base_at(raw, 2)) } else { None }
            &&& v.pcr_extension == if pcr { Some(clock_extension_at(raw, 2)) } else { None }
            &&& v.opcr_base == if opcr { Some(clock_base_at(raw, o)) } else { None }
            &&& v.opcr_extension == if opcr { Some(clock_extension_at(raw, o)) } else { None }
            &&& v.splice_countdown == if splicing { Some(raw[c] as i8) } else { None }
            &&& v.transport_private_data == if private {
                Some(raw.subrange(p + 1, p + 1 + raw[p]))
            } else {
                None
            }
            &&& v.adaptation_field_extension == if extension {
                Some(extension_value(raw, x))
            } else {
                None
            }
            &&& adaptation_field_error(raw) is None <==> {
                &&& c <= raw.len()
                &&& splicing ==> c + 1 <= raw.len()
                &&& private ==> p + 1 <= raw.len() && p + 1 + raw[p] <= raw.len()
                &&& extension ==> extension_error(raw, x) is None
            }
        }),
{
    let f = raw[1];
    lemma_eight_flags(
        f,
        discontinuity,
        random_access,
        priority,
        pcr,
        opcr,
        splicing,
        private,
        extension,
    );
}

/// The bits of a byte of flags.
pub(crate) proof fn lemma_eight_flags(
    f: u8,
    a: bool,
    b: bool,
    c: bool,
    d: bool,
    e: bool,
    g: bool,
    h: bool,
    i: bool,
)
    requires
        f == 128 * bit(a) + 64 * bit(b) + 32 * bit(c) + 16 * bit(d) + 8 * bit(e) + 4 * bit(g) + 2
            * bit(h) + bit(i),
    ensures
        (f & 0x80 != 0) == a,
        (f & 0x40 != 0) == b,
        (f & 0x20 != 0) == c,
        (f & 0x10 != 0) == d,
        (f & 0x08 != 0) == e,
        (f & 0x04 != 0) == g,
        (f & 0x02 != 0) == h,
        (f & 0x01 != 0) == i,
        (f >> 6) & 3 == 2 * bit(a) + bit(b),
{
    assert(f == (if a { 128u8 } else { 0 }) + (if b { 64u8 } else { 0 }) + (if c { 32u8 } else { 0 })
        + (if d { 16u8 } else { 0 }) + (if e { 8u8 } else { 0 }) + (if g { 4u8 } else { 0 }) + (if h {
        2u8
    } else {
        0
    }) + (if i { 1u8 } else { 0 }));
    lemma_flag_sum(f, a, b, c, d, e, g, h, i);
}

proof fn lemma_flag_sum(
    f: u8,
    a: bool,
    b: bool,
    c: bool,
    d: bool,
    e: bool,
    g: bool,
    h: bool,
    i: bool,
)
    by (bit_vector)
    requires
        f == (if a { 128u8 } else { 0 }) + (if b { 64u8 } else { 0 }) + (if c { 32u8 } else { 0 }) + (
        if d { 16u8 } else { 0 }) + (if e { 8u8 } else { 0 }) + (if g { 4u8 } else { 0 }) + (if h {
            2u8
        } else {
            0
        }) + (if i { 1u8 } else { 0 }),
    ensures
        (f & 0x80 != 0) == a,
        (f & 0x40 != 0) == b,
        (f & 0x20 != 0) == c,
        (f & 0x10 != 0) == d,
        (f & 0x08 != 0) == e,
        (f & 0x04 != 0) == g,
        (f & 0x02 != 0) == h,
        (f & 0x01 != 0) == i,
        (f >> 6) & 3 == (if a { 2u8 } else { 0 }) + (if b { 1u8 } else { 0 }),
{
}

/// An adaptation field of length zero says nothing.
pub proof fn lemma_empty_adaptation_field(raw: Seq<u8>)
    requires
        raw.len() > 0,
        raw[0] == 0,
    ensures
        parse_adaptation_field_spec(raw) matches Ok(v) && {
            &&& !v.discontinuity_indicator && !v.random_access_indicator
            &&& v.pcr_base is None && v.opcr_base is None && v.splice_countdown is None
            &&& v.transport_private_data is None && v.adaptation_field_extension is None
            &&& v.length == 0
        },
{
}

/// A countdown is signed: from 128 on it is 256 less.
pub proof fn lemma_countdown_signed(b: u8)
    ensures
        b < 128 ==> b as i8 == b,
        b >= 128 ==> b as i8 == b - 256,
{
    assert(b < 128 ==> b as i8 as int == b as int);
    assert(b >= 128 ==> b as i8 as int == b as int - 256) by (bit_vector);
}

/// A clock reference: 33 bits of base, six reserved ones, nine bits of extension.
pub proof fn lemma_clock_reference_value(raw: Seq<u8>, at: int, base: u64, ext: u16)
    requires
        base < 0x2_0000_0000,
        ext < 512,
        raw[at] == base / 33554432,
        raw[at + 1] == base / 131072 % 256,
        raw[at + 2] == base / 512 % 256,
        raw[at + 3] == base / 2 % 256,
        raw[at + 4] / 128 == base % 2,
        raw[at + 4] % 2 == ext / 256,
        raw[at + 5] == ext % 256,
    ensures
        clock_base_at(raw, at) == base,
        clock_extension_at(raw, at) == ext,
{
    lemma_joined_clock(
        raw[at],
        raw[at + 1],
        raw[at + 2],
        raw[at + 3],
        raw[at + 4],
        raw[at + 5],
    );
}

/// A timestamp: three bits, fifteen and fifteen, each group before a marker bit.
pub proof fn lemma_timestamp_value(raw: Seq<u8>, at: int, t: u64)
    requires
        t < 0x2_0000_0000,
        raw[at] / 2 % 8 == t / 1073741824,
        raw[at + 1] == t / 4194304 % 256,
        raw[at + 2] / 2 == t / 32768 % 128,
        raw[at + 3] == t / 128 % 256,
        raw[at + 4] / 2 == t % 128,
    ensures
        ts33_at(raw, at) == t,
{
    lemma_joined_timestamp(raw[at], raw[at + 1], raw[at + 2], raw[at + 3], raw[at + 4]);
    let a = t as int / 128;
    let b = a / 256;
    let c = b / 128;
    let d = c / 256;
    assert(b == t as int / 32768);
    assert(c == t as int / 4194304);
    assert(d == t as int / 1073741824);
    assert(t == 128 * a + t as int % 128);
    assert(a == 256 * b + a % 256);
    assert(b == 128 * c + b % 128);
    assert(c == 256 * d + c % 256);
}

/// The extension of an adaptation field: three flags, then a legal time window of a flag
/// and 15 bits, a piecewise rate of 22 bits, and a splice type of four bits with a
/// timestamp, one behind the other as far as flagged.
pub proof fn lemma_extension_places(raw: Seq<u8>, at: int, ltw: bool, rate: bool, splice: bool)
    requires
        0 <= at,
        at + 1 < raw.len(),
        raw[at] > 0,
        raw[at + 1] / 128 == bit(ltw),
        raw[at + 1] / 64 % 2 == bit(rate),
        raw[at + 1] / 32 % 2 == bit(splice),
    ensures
        ({
            let v = extension_value(raw, at);
            let r = at + 2 + 2 * bit(ltw);
            let s = r + 3 * bit(rate);
            &&& v.length == raw[at]
            &&& v.ltw_flag == ltw
            &&& v.piecewise_rate_flag == rate
            &&& v.seamless_splice_flag == splice
            &&& v.ltw_valid_flag == if ltw { Some(raw[at + 2] >= 128) } else { None }
            &&& ltw ==> v.ltw_offset is Some && v.ltw_offset->0 == 256 * (raw[at + 2] % 128)
                + raw[at + 3]
            &&& !ltw ==> v.ltw_offset is None
            &&& rate ==> v.piecewise_rate is Some && v.piecewise_rate->0 == 65536 * (raw[r] % 64)
                + 256 * raw[r + 1] + raw[r + 2]
            &&& !rate ==> v.piecewise_rate is None
            &&& splice ==> v.splice_type is Some && v.splice_type->0 == raw[s] / 16
                && v.dts_next_au == Some(ts33_at(raw, s))
            &&& !splice ==> v.splice_type is None && v.dts_next_au is None
            &&& extension_error(raw, at) is None <==> {
                let end = at + 1 + raw[at];
                &&& end <= raw.len()
                &&& (ltw ==> at + 4 <= end)
                &&& (rate ==> r + 3 <= end)
                &&& (splice ==> s + 5 <= end)
            }
        }),
{
    lemma_byte_bits(raw[at + 1]);
    lemma_byte_bits(raw[at + 2]);
    lemma_joined_bytes(raw[at + 2], raw[at + 3], 0, 0);
    let r = at + 2 + 2 * bit(ltw);
    let s = r + 3 * bit(rate);
    lemma_joined_bytes(raw[r], raw[r + 1], raw[r + 2], 0);
    lemma_byte_bits(raw[s]);
}

/// The framings: packets every 188 bytes; every 192, four bytes into each; every 204,
/// with sixteen after each.
pub proof fn lemma_framings(layout: TsPacketLayout, b: Seq<u8>, i: int)
    ensures
        layout == TsPacketLayout::STANDARD ==> layout.packet(b, i) == b.subrange(
            188 * i,
            188 * i + 188,
        ) && layout.count(b) == b.len() / 188,
        layout == TsPacketLayout::PREFIXED_192 ==> layout.packet(b, i) == b.subrange(
            192 * i + 4,
            192 * i + 192,
        ) && layout.count(b) == b.len() / 192,
        layout == TsPacketLayout::TRAILER_204 ==> layout.packet(b, i) == b.subrange(
            204 * i,
            204 * i + 188,
        ) && layout.count(b) == b.len() / 204,
{
    assert(i * 188 == 188 * i);
    assert(i * 192 == 192 * i);
    assert(i * 204 == 204 * i);
}

/// A framing is found where every packet of it, or each of the first eight, starts with
/// the sync byte; plain packets come before the other two.
pub proof fn lemma_framing_detected(b: Seq<u8>)
    ensures
        detected_layout(b) == Some(TsPacketLayout::STANDARD) <==> b.len() >= 188 && forall|i: int|
            0 <= i < 8 && i < b.len() / 188 ==> b[#[trigger] (188 * i)] == 0x47,
        detected_layout(b) == Some(TsPacketLayout::PREFIXED_192) ==> b.len() >= 192 && forall|
            i: int,
        |
            0 <= i < 8 && i < b.len() / 192 ==> b[#[trigger] (192 * i) + 4] == 0x47,
        detected_layout(b) == Some(TsPacketLayout::TRAILER_204) ==> b.len() >= 204 && forall|i: int|
            0 <= i < 8 && i < b.len() / 204 ==> b[#[trigger] (204 * i)] == 0x47,
{
    lemma_sync_grid(TsPacketLayout::STANDARD, b);
    lemma_sync_grid(TsPacketLayout::PREFIXED_192, b);
    lemma_sync_grid(TsPacketLayout::TRAILER_204, b);
}

proof fn lemma_sync_grid(layout: TsPacketLayout, b: Seq<u8>)
    ensures
        layout.fits(b) <==> b.len() >= layout.size() && forall|i: int|
            0 <= i < 8 && i < b.len() / layout.size() ==> b[#[trigger] (layout.size() * i)
                + layout.offset()] == 0x47,
{
    let n = layout.size();
    assert(b.len() >= n <==> b.len() / n >= 1);
    if layout.fits(b) {
        assert forall|i: int| 0 <= i < 8 && i < b.len() / n implies b[#[trigger] (n * i)
            + layout.offset()] == 0x47 by {
            assert(i * n == n * i) by (nonlinear_arith);
            assert(b[(i * n) + layout.offset()] == 0x47);
        }
    }
    if b.len() >= n && forall|i: int|
        0 <= i < 8 && i < b.len() / n ==> b[#[trigger] (n * i) + layout.offset()] == 0x47 {
        assert forall|i: int| 0 <= i < layout.count(b) && i < 8 implies b[#[trigger] (i * n)
            + layout.offset()] == 0x47 by {
            assert(i * n == n * i) by (nonlinear_arith);
            assert(b[(n * i) + layout.offset()] == 0x47);
        }
    }
}

/// Which adaptation fields are written: with values that fit their bits, an OPCR only
/// beside a PCR, at most 255 private bytes, and no more than 184 bytes in all.
pub proof fn lemma_adaptation_field_accepted(spec: AdaptationFieldSpec, want: Option<usize>)
    ensures
        spec.error(want) is None <==> {
            &&& want matches Some(w) ==> w <= 184
            &&& spec.pcr matches Some((base, ext)) ==> base < 0x2_0000_0000 && ext < 512
            &&& spec.opcr matches Some((base, ext)) ==> base < 0x2_0000_0000 && ext < 512
            &&& spec.opcr is Some ==> spec.pcr is Some
            &&& spec.transport_private_data matches Some(d) ==> d@.len() <= 255
            &&& spec.extension matches Some(x) ==> {
                &&& x.ltw matches Some((_, offset)) ==> offset < 32768
                &&& x.piecewise_rate matches Some(r) ==> r < 4194304
                &&& x.seamless_splice matches Some((t, d)) ==> t < 16 && d < 0x2_0000_0000
                    && spec.splice_countdown is Some
            }
            &&& spec.body().len() <= 183
        },
{
}

/// What an adaptation field takes: a byte of length, one of flags, six for each clock
/// reference, one for a countdown, private data with their length, and an extension of
/// two bytes, and two, three and five for its parts. The first byte counts the others;
/// what is asked for beyond is filled with ones.
pub proof fn lemma_adaptation_field_size(spec: AdaptationFieldSpec, want: int)
    requires
        0 <= want <= 184,
        spec.body().len() <= 183,
    ensures
        ({
            let b = spec.encoded(want);
            let n = if spec.lacks_fields() && want <= 1 {
                1int
            } else if want > 1 + spec.body().len() {
                want
            } else {
                1 + spec.body().len() as int
            };
            &&& b.len() == n
            &&& b[0] == n - 1
            &&& forall|i: int| 1 + spec.body().len() <= i < n ==> b[i] == 255
            &&& spec.body().len() == 1 + 6 * bit(spec.pcr is Some) + 6 * bit(spec.opcr is Some)
                + bit(spec.splice_countdown is Some) + (match spec.transport_private_data {
                Some(d) => 1 + d@.len() as int,
                None => 0,
            }) + (match spec.extension {
                Some(x) => 2 + 2 * bit(x.ltw is Some) + 3 * bit(x.piecewise_rate is Some) + 5 * bit(
                    x.seamless_splice is Some,
                ),
                None => 0,
            })
        }),
{
    if let Some(x) = spec.extension {
        assert(x.body().len() == 1 + 2 * bit(x.ltw is Some) + 3 * bit(x.piecewise_rate is Some) + 5
            * bit(x.seamless_splice is Some));
    }
}

/// What a parsed packet holds is what its fields say.
pub proof fn lemma_packet_view(p: TsPacket<'_>)
    ensures
        p@.pid == p.pid,
        p@.payload_unit_start == p.payload_unit_start,
        p@.transport_error == p.transport_error,
        p@.transport_priority == p.transport_priority,
        p@.transport_scrambling_control == p.transport_scrambling_control,
        p@.continuity_counter == p.continuity_counter,
        p@.payload == p.payload@,
        p@.bytes == p.bytes@,
        p@.adaptation_field is Some == p.adaptation_field is Some,
        p.adaptation_field matches Some(af) ==> p@.adaptation_field == Some(af@),
{
}

/// What a parsed adaptation field holds is what its fields say.
pub proof fn lemma_adaptation_field_view(f: AdaptationField<'_>)
    ensures
        f@.length == f.length,
        f@.discontinuity_indicator == f.discontinuity_indicator,
        f@.random_access_indicator == f.random_access_indicator,
        f@.elementary_stream_priority_indicator == f.elementary_stream_priority_indicator,
        f@.pcr_flag == f.pcr_flag,
        f@.opcr_flag == f.opcr_flag,
        f@.splicing_point_flag == f.splicing_point_flag,
        f@.transport_private_data_flag == f.transport_private_data_flag,
        f@.adaptation_field_extension_flag == f.adaptation_field_extension_flag,
        f@.pcr_base == f.pcr_base,
        f@.pcr_extension == f.pcr_extension,
        f@.opcr_base == f.opcr_base,
        f@.opcr_extension == f.opcr_extension,
        f@.splice_countdown == f.splice_countdown,
        f@.adaptation_field_extension == f.adaptation_field_extension,
        f.transport_private_data matches Some(d) ==> f@.transport_private_data == Some(d@),
        f.transport_private_data is None ==> f@.transport_private_data is None,
        f@.raw == f.raw@,
{
}

/// The bits that mean nothing are written as they should be: six ones in a clock
/// reference, a marker after each group of a timestamp, whose prefix comes first, five ones
/// in the flags of an extension, and two before a piecewise rate.
pub proof fn lemma_fixed_bits_written(
    base: u64,
    ext: u16,
    prefix: u8,
    t: u64,
    x: AdaptationFieldExtensionSpec,
)
    requires
        base < 0x2_0000_0000,
        ext < 512,
        prefix < 16,
        t < 0x2_0000_0000,
        x.piecewise_rate matches Some(r) ==> r < 4194304,
    ensures
        clock_reference_bytes(base, ext).len() == 6,
        clock_reference_bytes(base, ext)[4] / 2 % 64 == 63,
        ts33_bytes(prefix, t).len() == 5,
        ts33_bytes(prefix, t)[0] / 16 == prefix,
        ts33_bytes(prefix, t)[0] % 2 == 1,
        ts33_bytes(prefix, t)[2] % 2 == 1,
        ts33_bytes(prefix, t)[4] % 2 == 1,
        x.flags() % 32 == 31,
        x.piecewise_rate is Some ==> x.rate_bytes()[0] / 64 == 3,
{
    lemma_clock_reference_bits(base, ext);
    lemma_ts33_bits(prefix, t);
    let c = clock_reference_bytes(base, ext)[4];
    let w = ts33_bytes(prefix, t);
    lemma_middle_bits(c);
    lemma_byte_bits(w[0]);
    lemma_byte_bits(w[2]);
    lemma_byte_bits(w[4]);
    lemma_extension_flag_bits(
        x.ltw is Some,
        x.piecewise_rate is Some,
        x.seamless_splice is Some,
    );
    lemma_byte_bits(x.flags());
    if x.piecewise_rate is Some {
        lemma_extension_field_bits(false, 0, x.piecewise_rate->0);
    }
}

proof fn lemma_middle_bits(c: u8)
    requires
        (c >> 1) & 0x3F == 63,
    ensures
        c / 2 % 64 == 63,
{
    lemma_byte_bits(c >> 1);
    lemma_byte_bits(c);
}

} // verus!
