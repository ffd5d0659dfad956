//! What a PCR report says of a stream: how many clock references, how far apart, and
//! how many bits a second.
use vstd::prelude::*;

use crate::validate::pcr::{pcr_ticks, ticks_between, PcrState};

verus! {

/// Ticks from clock value `a` on to clock value `b`: over the wrap where `b` is the
/// smaller one.
pub open spec fn ticks_on(a: int, b: int) -> int {
    if a <= b { b - a } else { b - a + 2_576_980_377_600 }
}

/// The clock values are within the wrap.
pub open spec fn within_wrap(s: PcrState) -> bool {
    &&& s.anchor matches Some((t, _)) ==> t < 2_576_980_377_600
    &&& s.last matches Some((t, _)) ==> t < 2_576_980_377_600
}

/// The reported rate is the bits from the first clock reference since the last
/// discontinuity to the last one, by the seconds of the 27 MHz clock between them,
/// rounded down: in `ticks` ticks of 1/27000000 s come `8 * bytes` bits. There is none
/// without two references in different places and at different times, or where it
/// takes more than 64 bits.
pub proof fn lemma_rate_is_bits_by_seconds(s: PcrState)
    requires
        within_wrap(s),
    ensures
        match (s.anchor, s.last) {
            (Some((t0, o0)), Some((t1, o1))) => {
                let ticks = ticks_on(t0 as int, t1 as int);
                let bits = 8 * (o1 - o0);
                &&& o1 <= o0 || t0 == t1 ==> s.reported().estimated_rate_bps is None
                &&& o1 > o0 && t0 != t1 ==> ticks > 0 && match s.reported().estimated_rate_bps {
                    Some(r) => r * ticks <= bits * 27_000_000 < (r + 1) * ticks,
                    None => bits * 27_000_000 >= 0x1_0000_0000_0000_0000 * ticks,
                }
            },
            _ => s.reported().estimated_rate_bps is None,
        },
{
    if s.anchor is Some && s.last is Some {
        let (t0, o0) = s.anchor->0;
        let (t1, o1) = s.last->0;
        if o1 > o0 && t0 != t1 {
            let ticks = ticks_on(t0 as int, t1 as int);
            lemma_ticks_on(t0, t1);
            let x = 8 * (o1 - o0) * 27_000_000;
            let r = x / ticks;
            vstd::arithmetic::div_mod::lemma_fundamental_div_mod(x, ticks);
            vstd::arithmetic::div_mod::lemma_mod_bound(x, ticks);
            assert((o1 - o0) * 8 * 27_000_000 == x);
            assert(r * ticks <= x < (r + 1) * ticks) by (nonlinear_arith)
                requires
                    x == ticks * r + x % ticks,
                    0 <= x % ticks < ticks,
            ;
            assert(r >= 0) by (nonlinear_arith)
                requires
                    x < (r + 1) * ticks,
                    x >= 0,
                    ticks > 0,
            ;
            if r > u64::MAX {
                assert(x >= 0x1_0000_0000_0000_0000 * ticks) by (nonlinear_arith)
                    requires
                        r * ticks <= x,
                        r >= 0x1_0000_0000_0000_0000,
                        ticks > 0,
                ;
            }
        }
    }
}

proof fn lemma_ticks_on(a: u64, b: u64)
    requires
        a < 2_576_980_377_600,
        b < 2_576_980_377_600,
    ensures
        ticks_between(a, b) == ticks_on(a as int, b as int),
        ticks_on(a as int, b as int) >= 0,
        a != b ==> ticks_on(a as int, b as int) > 0,
{
    let m = 2_576_980_377_600int;
    if a <= b {
        assert((b - a) % m == b - a);
    } else {
        assert((b - a) % m == b - a + m);
    }
}

/// A stream whose clock references tell the time of a byte clock of `rate` bit/s, each
/// to a tick, is reported with that rate: the reported one is off by no more than what
/// a tick, and rounding down, make of it.
pub proof fn lemma_constant_rate_reported(s: PcrState, rate: int)
    requires
        within_wrap(s),
        rate >= 1,
        s.anchor is Some,
        s.last is Some,
        ({
            let (t0, o0) = s.anchor->0;
            let (t1, o1) = s.last->0;
            let ticks = ticks_on(t0 as int, t1 as int);
            &&& o1 > o0
            &&& t0 != t1
            &&& -rate < ticks * rate - (o1 - o0) * 8 * 27_000_000 < rate
        }),
        s.reported().estimated_rate_bps is Some,
    ensures
        ({
            let r = s.reported().estimated_rate_bps->0;
            let ticks = ticks_on((s.anchor->0).0 as int, (s.last->0).0 as int);
            &&& (r - rate) * ticks < rate
            &&& (rate - r) * ticks < rate + ticks
        }),
{
    lemma_rate_is_bits_by_seconds(s);
    let r = s.reported().estimated_rate_bps->0 as int;
    let ticks = ticks_on((s.anchor->0).0 as int, (s.last->0).0 as int);
    assert((r - rate) * ticks == r * ticks - ticks * rate) by (nonlinear_arith);
    assert((rate - r) * ticks == ticks * rate + ticks - (r + 1) * ticks) by (nonlinear_arith);
}

/// The clock value of a reference: 300 ticks for each of the 90 kHz base, and the
/// extension, within the wrap.
pub proof fn lemma_ticks_of_reference(base: u64, ext: u16)
    requires
        base < 0x2_0000_0000,
        ext < 300,
    ensures
        pcr_ticks(base, ext) == 300 * base + ext,
        pcr_ticks(base, ext) < 2_576_980_377_600,
{
    assert((base * 300 + ext) % 2_576_980_377_600 == base * 300 + ext);
}

/// A reference is too late if more than 0,1 s of the 27 MHz clock lie between it and
/// the one before it, over the wrap too, and no discontinuity is signalled since.
pub proof fn lemma_late_is_a_tenth_of_a_second(
    s: PcrState,
    n: int,
    discontinuity: bool,
    base: u64,
    ext: u16,
)
    requires
        s.wf(n),
        base < 0x2_0000_0000,
        ext < 300,
    ensures
        s.too_late(discontinuity, Some(base), Some(ext)) <==> {
            &&& !discontinuity
            &&& !s.pending_discontinuity
            &&& s.last matches Some((t, _)) && ticks_on(t as int, 300 * base + ext) > 2_700_000
        },
        !s.too_late(discontinuity, None, Some(ext)),
{
    lemma_ticks_of_reference(base, ext);
    if s.last is Some {
        lemma_ticks_on((s.last->0).0, pcr_ticks(base, ext));
    }
}

/// What a reference does to the measurements: it is counted, it is the last one, it
/// starts anew where nothing came before it or a discontinuity was signalled, and the
/// largest interval is not smaller than the one before it.
pub proof fn lemma_reference_measured(
    s: PcrState,
    n: int,
    discontinuity: bool,
    base: u64,
    ext: u16,
    offset: u64,
)
    requires
        s.wf(n),
        n < u64::MAX,
        base < 0x2_0000_0000,
        ext < 300,
    ensures
        ({
            let g = s.after(discontinuity, Some(base), Some(ext), offset);
            let at = ((300 * base + ext) as u64, offset);
            let anew = discontinuity || s.pending_discontinuity || s.last is None;
            &&& g.samples == s.samples + 1
            &&& g.last == Some(at)
            &&& g.anchor == (if anew { Some(at) } else { s.anchor })
            &&& !g.pending_discontinuity
            &&& g.signalled_discontinuities == s.signalled_discontinuities + (if discontinuity {
                1int
            } else {
                0
            })
            &&& anew ==> g.max_interval == s.max_interval
            &&& !anew ==> {
                let d = ticks_on((s.last->0).0 as int, 300 * base + ext);
                &&& g.max_interval matches Some(m) && m >= d && (m == d || Some(m)
                    == s.max_interval)
                &&& s.max_interval matches Some(m) ==> g.max_interval->0 >= m
            }
            &&& g.reported().samples == s.reported().samples + 1
            &&& g.reported().max_interval_27mhz == g.max_interval
            &&& g.reported().signalled_discontinuities == g.signalled_discontinuities
            &&& g.reported().pid == s.pid
        }),
{
    lemma_ticks_of_reference(base, ext);
    if s.last is Some {
        lemma_ticks_on((s.last->0).0, pcr_ticks(base, ext));
    }
}

/// A packet without a reference measures nothing; a discontinuity that it signals is
/// counted, and waits for the next reference.
pub proof fn lemma_no_reference(
    s: PcrState,
    n: int,
    discontinuity: bool,
    ext: Option<u16>,
    offset: u64,
)
    requires
        s.wf(n),
        n < u64::MAX,
    ensures
        ({
            let g = s.after(discontinuity, None, ext, offset);
            &&& g.samples == s.samples
            &&& g.last == s.last
            &&& g.anchor == s.anchor
            &&& g.max_interval == s.max_interval
            &&& g.pending_discontinuity == (s.pending_discontinuity || discontinuity)
            &&& g.signalled_discontinuities == s.signalled_discontinuities + (if discontinuity {
                1int
            } else {
                0
            })
        }),
{
}

} // verus!
