//! With pacing, clock references keep to the byte clock: one is late only if more
//! than 0,1 s of bytes lie between it and the one before.
use vstd::prelude::*;

use crate::clock::PCR_MODULUS_27MHZ;
use crate::muxer::conformance::{lemma_packet_at, plain_stream};
use crate::muxer::flow::{PacerView, TICKS_PER_BYTE_RATE};
use crate::muxer::laws::lemma_clock_keeps_rate;
use crate::muxer::mux::MuxView;
use crate::muxer::well_formed::{
    by_clock, is_sound, is_stream, lemma_stream_len, orderly, sound, tells_time,
};
use crate::validate::pcr::{ext_or_zero, pcr_ticks, ticks_between, MAX_PCR_INTERVAL_27MHZ};
use crate::validate::pcr_laws::{lemma_constant_rate_reported, ticks_on};
use crate::validate::stream::{Rule, TsStream};

verus! {

/// Packet `i` of `s` carries a clock reference.
pub open spec fn has_clock_at(s: TsStream, i: int) -> bool {
    s.counts(i) && (s.field(i) matches Some(af) && af.pcr_base is Some)
}

/// The clock value of packet `i`.
pub open spec fn clock_at(s: TsStream, i: int) -> u64 {
    let af = s.field(i)->0;
    pcr_ticks(af.pcr_base->0, ext_or_zero(af.pcr_extension))
}

/// Every packet keeps to the byte clock.
proof fn lemma_tells_time_at(out: Seq<u8>, at: int, rate: int, anchor: (int, int), i: int)
    requires
        is_stream(out),
        by_clock(out, at, rate, anchor),
        0 <= i < plain_stream(out).len(),
        at + 188 * i >= anchor.0,
    ensures
        tells_time(plain_stream(out).raw(i), at + 188 * i, rate, anchor),
    decreases out.len(),
{
    lemma_stream_len(out);
    reveal(is_stream);
    reveal(by_clock);
    let n = out.len() / 188;
    let head = out.take(out.len() - 188);
    lemma_packet_at(out, i);
    lemma_packet_at(head, i);
    if i == n - 1 {
        assert(plain_stream(out).raw(i) =~= out.skip(out.len() - 188));
    } else {
        assert(head.len() == 188 * (n - 1));
        lemma_tells_time_at(head, at, rate, anchor, i);
        assert(plain_stream(out).raw(i) =~= plain_stream(head).raw(i));
    }
}

/// A clock reference that is written on the byte clock has the time of its place:
/// that of the last byte of its base field, whatever came before it.
pub proof fn lemma_reference_keeps_clock(m: MuxView, i: int)
    requires
        is_sound(m),
        m.flow.anchored(),
        0 <= i < plain_stream(m.flow.out).len(),
        has_clock_at(plain_stream(m.flow.out), i),
        m.flow.drained + 188 * i >= (m.flow.pacer->0.anchor->0).0,
    ensures
        clock_at(plain_stream(m.flow.out), i) == m.flow.pacer->0.time_at(
            m.flow.drained + 188 * i + 10,
        ) % PCR_MODULUS_27MHZ as int,
{
    let p = m.flow.pacer->0;
    let s = plain_stream(m.flow.out);
    reveal(sound);
    reveal(orderly);
    lemma_tells_time_at(m.flow.out, m.flow.drained, p.rate, p.anchor->0, i);
    let t = p.time_at(m.flow.drained + 188 * i + 10) % PCR_MODULUS_27MHZ as int;
    let af = s.field(i)->0;
    assert(af.pcr_base->0 == t / 300 && af.pcr_extension == Some((t % 300) as u16));
    assert((t / 300) * 300 + t % 300 == t);
}

/// The last clock reference that a validation remembers is one of the stream.
proof fn lemma_last_is_earlier(out: Seq<u8>, pid: u16, i: int)
    requires
        is_stream(out),
        out.len() <= u64::MAX,
        0 <= i <= plain_stream(out).len(),
    ensures
        ({
            let s = plain_stream(out);
            s.pcr_state(pid, i).last matches Some((x, o)) ==> {
                let j = o as int / 188;
                &&& 0 <= j < i
                &&& o == 188 * j
                &&& s.on(pid, j)
                &&& has_clock_at(s, j)
                &&& clock_at(s, j) == x
            }
        }),
    decreases i,
{
    if i > 0 {
        lemma_last_is_earlier(out, pid, i - 1);
        lemma_stream_len(out);
        lemma_packet_at(out, i - 1);
        let s = plain_stream(out);
        assert(s.layout.size() == 188);
        assert(188 * (i - 1) <= out.len());
        assert((i - 1) * 188 == 188 * (i - 1));
        assert(s.offset(i - 1) == 188 * (i - 1));
    }
}

/// Packet `i` carries a clock reference, and the bytes since the one before it on
/// its PID take more than 0,1 s at `rate`.
pub open spec fn comes_far(s: TsStream, rate: int, i: int) -> bool {
    &&& has_clock_at(s, i)
    &&& s.pcr_state(s.packet(i).pid, i).last matches Some((_, o)) && (188 * i - o)
        * TICKS_PER_BYTE_RATE > MAX_PCR_INTERVAL_27MHZ * rate
}

/// Of two clock references that are written on the same byte clock, the second is
/// late only if the bytes between them take more than 0,1 s.
pub proof fn lemma_late_is_far(m: MuxView, i: int)
    requires
        is_sound(m),
        m.flow.anchored(),
        m.flow.pacer->0.rate >= 1,
        m.flow.out.len() <= u64::MAX,
        0 <= i < plain_stream(m.flow.out).len(),
        plain_stream(m.flow.out).breaks(Rule::LatePcr, i),
        ({
            let s = plain_stream(m.flow.out);
            let o = (s.pcr_state(s.packet(i).pid, i).last->0).1;
            m.flow.drained + o >= (m.flow.pacer->0.anchor->0).0
        }),
    ensures
        comes_far(plain_stream(m.flow.out), m.flow.pacer->0.rate, i),
{
    let out = m.flow.out;
    let s = plain_stream(out);
    let p = m.flow.pacer->0;
    let pid = s.packet(i).pid;
    assert(is_stream(out)) by {
        reveal(sound);
        reveal(orderly);
    }
    lemma_last_is_earlier(out, pid, i);
    let (x, o) = s.pcr_state(pid, i).last->0;
    let j = o as int / 188;
    let a = m.flow.drained + 188 * j + 10;
    let b = m.flow.drained + 188 * i + 10;
    lemma_reference_keeps_clock(m, j);
    lemma_reference_keeps_clock(m, i);
    lemma_clock_keeps_rate(p, a, b);
    let d = p.time_at(b) - p.time_at(a);
    let bytes = (b - a) * TICKS_PER_BYTE_RATE;
    if bytes <= MAX_PCR_INTERVAL_27MHZ * p.rate {
        assert(0 <= d <= MAX_PCR_INTERVAL_27MHZ) by (nonlinear_arith)
            requires
                -p.rate < d * p.rate - bytes < p.rate,
                0 <= bytes <= MAX_PCR_INTERVAL_27MHZ * p.rate,
                p.rate >= 1,
        ;
        lemma_modular_step(p.time_at(a), p.time_at(b));
        assert(!s.breaks(Rule::LatePcr, i));
    }
}

/// A step that is shorter than the clock is long is seen whole.
proof fn lemma_modular_step(a: int, b: int)
    requires
        0 <= b - a <= MAX_PCR_INTERVAL_27MHZ,
    ensures
        ticks_between(
            (a % PCR_MODULUS_27MHZ as int) as u64,
            (b % PCR_MODULUS_27MHZ as int) as u64,
        ) == b - a,
{
    let m = PCR_MODULUS_27MHZ as int;
    let ra = a % m;
    let rb = b % m;
    assert(rb - ra == b - a || rb - ra == b - a - m);
    assert((rb - ra) % m == b - a);
}

/// A validation finds no late clock reference in what is written on one byte clock
/// if no two of them on a PID have more than 0,1 s of bytes between them.
pub proof fn lemma_paced_clocks_kept(m: MuxView, n: int)
    requires
        is_sound(m),
        m.flow.anchored(),
        m.flow.pacer->0.rate >= 1,
        m.flow.out.len() <= u64::MAX,
        n <= plain_stream(m.flow.out).len(),
        forall|i: int|
            0 <= i < n && #[trigger] has_clock_at(plain_stream(m.flow.out), i) ==> m.flow.drained
                + 188 * i >= (m.flow.pacer->0.anchor->0).0,
        forall|i: int|
            0 <= i < n ==> !(#[trigger] comes_far(
                plain_stream(m.flow.out),
                m.flow.pacer->0.rate,
                i,
            )),
    ensures
        plain_stream(m.flow.out).count(Rule::LatePcr, n) == 0,
    decreases n,
{
    if n > 0 {
        lemma_paced_clocks_kept(m, n - 1);
        let s = plain_stream(m.flow.out);
        let i = n - 1;
        if s.breaks(Rule::LatePcr, i) {
            assert(is_stream(m.flow.out)) by {
                reveal(sound);
                reveal(orderly);
            }
            let pid = s.packet(i).pid;
            lemma_last_is_earlier(m.flow.out, pid, i);
            let o = (s.pcr_state(pid, i).last->0).1;
            assert(has_clock_at(s, o as int / 188));
            lemma_late_is_far(m, i);
            assert(comes_far(s, m.flow.pacer->0.rate, i));
        }
    }
}

/// The first clock reference since the last discontinuity is one of the stream too,
/// not after the last one.
proof fn lemma_first_is_earlier(out: Seq<u8>, pid: u16, i: int)
    requires
        is_stream(out),
        out.len() <= u64::MAX,
        0 <= i <= plain_stream(out).len(),
    ensures
        ({
            let s = plain_stream(out);
            let st = s.pcr_state(pid, i);
            st.anchor matches Some((x, o)) ==> {
                let j = o as int / 188;
                &&& 0 <= j < i
                &&& o == 188 * j
                &&& has_clock_at(s, j)
                &&& clock_at(s, j) == x
                &&& st.last matches Some((_, q)) && o <= q
            }
        }),
    decreases i,
{
    if i > 0 {
        lemma_first_is_earlier(out, pid, i - 1);
        lemma_last_is_earlier(out, pid, i - 1);
        lemma_stream_len(out);
        lemma_packet_at(out, i - 1);
        let s = plain_stream(out);
        assert(s.layout.size() == 188);
        assert(188 * (i - 1) <= out.len());
        assert((i - 1) * 188 == 188 * (i - 1));
        assert(s.offset(i - 1) == 188 * (i - 1));
    }
}

/// Between two places on the byte clock pass as many ticks of the 27 MHz clock as their
/// bits take at the rate of the clock, to a tick; where it was started it shows the time
/// it was started with.
pub proof fn lemma_byte_clock_counts_bits(p: PacerView, a: int, b: int)
    requires
        p.rate >= 1,
        p.anchor is Some,
        a <= b,
    ensures
        ({
            let bits = 8 * (b - a);
            let ticks = p.time_at(b) - p.time_at(a);
            &&& -p.rate < ticks * p.rate - bits * 27_000_000 < p.rate
            &&& p.time_at((p.anchor->0).0) == (p.anchor->0).1
        }),
{
    lemma_clock_keeps_rate(p, a, b);
    let x = 0 * TICKS_PER_BYTE_RATE;
    assert(x / p.rate == 0);
}

/// The distance of two times that are less than a wrap apart is seen on the clock.
proof fn lemma_wrapped_distance(a: int, b: int)
    requires
        0 < b - a < PCR_MODULUS_27MHZ,
    ensures
        ticks_on(a % PCR_MODULUS_27MHZ as int, b % PCR_MODULUS_27MHZ as int) == b - a,
        0 <= a % PCR_MODULUS_27MHZ as int,
        0 <= b % PCR_MODULUS_27MHZ as int,
        a % PCR_MODULUS_27MHZ as int != b % PCR_MODULUS_27MHZ as int,
{
    let w = PCR_MODULUS_27MHZ as int;
    vstd::arithmetic::div_mod::lemma_fundamental_div_mod(a, w);
    vstd::arithmetic::div_mod::lemma_fundamental_div_mod(b, w);
    assert(b % w - a % w == b - a || b % w - a % w == b - a - w);
}

/// What is written on one byte clock of `rate` bit/s is reported with that rate: off by
/// no more than what a tick, and rounding down, make of it. The clock must not have
/// wrapped since the first clock reference.
#[verifier::rlimit(30)]
#[verifier::spinoff_prover]
pub proof fn lemma_paced_rate_reported(m: MuxView, pid: u16)
    requires
        is_sound(m),
        m.flow.anchored(),
        m.flow.pacer->0.rate >= 1,
        m.flow.out.len() <= u64::MAX,
        forall|i: int|
            0 <= i < plain_stream(m.flow.out).len() && #[trigger] has_clock_at(
                plain_stream(m.flow.out),
                i,
            ) ==> m.flow.drained + 188 * i >= (m.flow.pacer->0.anchor->0).0,
        ({
            let s = plain_stream(m.flow.out);
            let st = s.pcr_state(pid, s.len() as int);
            let p = m.flow.pacer->0;
            &&& st.anchor matches Some((_, o0)) && (st.last matches Some((_, o1)) && 0 < p.time_at(
                m.flow.drained + o1 + 10,
            ) - p.time_at(m.flow.drained + o0 + 10) < 2_576_980_377_600)
            &&& st.reported().estimated_rate_bps is Some
        }),
    ensures
        ({
            let s = plain_stream(m.flow.out);
            let st = s.pcr_state(pid, s.len() as int);
            let rate = m.flow.pacer->0.rate;
            let r = st.reported().estimated_rate_bps->0;
            let ticks = ticks_on((st.anchor->0).0 as int, (st.last->0).0 as int);
            &&& (r - rate) * ticks < rate
            &&& (rate - r) * ticks < rate + ticks
        }),
{
    let out = m.flow.out;
    let s = plain_stream(out);
    let p = m.flow.pacer->0;
    let st = s.pcr_state(pid, s.len() as int);
    assert(is_stream(out)) by {
        reveal(sound);
        reveal(orderly);
    }
    lemma_last_is_earlier(out, pid, s.len() as int);
    lemma_first_is_earlier(out, pid, s.len() as int);
    let (t0, o0) = st.anchor->0;
    let (t1, o1) = st.last->0;
    let j0 = o0 as int / 188;
    let j1 = o1 as int / 188;
    let a = m.flow.drained + 188 * j0 + 10;
    let b = m.flow.drained + 188 * j1 + 10;
    lemma_reference_keeps_clock(m, j0);
    lemma_reference_keeps_clock(m, j1);
    lemma_byte_clock_counts_bits(p, a, b);
    lemma_wrapped_distance(p.time_at(a), p.time_at(b));
    let ticks = ticks_on(t0 as int, t1 as int);
    assert(ticks == p.time_at(b) - p.time_at(a));
    assert(o1 - o0 == b - a);
    lemma_constant_rate_reported(st, p.rate);
}

} // verus!
