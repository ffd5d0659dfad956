//! When bytes arrive: clock references cut the stream into stretches
//! of constant rate.
use vstd::prelude::*;

use crate::clock::PCR_MODULUS_27MHZ;
use crate::error::TsError;
use crate::packet::layout::{lemma_frame_in_bounds, TsPacketLayout};
use crate::packet::parse::{AdaptationFieldView, TsPacket};
use crate::validate::report::lemma_pcr_base_bound;
use crate::validate::stream::TsStream;

verus! {

/// A clock reference and where it stands.
#[derive(Debug, Clone, Copy, PartialEq, Eq, Structural)]
pub struct PcrSample {
    /// Position of its byte in the stream of 188-byte packets.
    pub pos: u64,
    /// Its value in 27 MHz ticks.
    pub pcr: u64,
    /// A discontinuity was signalled since the reference before it.
    pub discontinuity: bool,
}

/// The clock references up to some packet.
pub struct Sampling {
    /// They themselves.
    pub samples: Seq<PcrSample>,
    /// A discontinuity has been signalled since the last of them.
    pub pending: bool,
}

/// The 27 MHz value of the clock reference in an adaptation field.
pub open spec fn pcr_value(af: AdaptationFieldView) -> int {
    af.pcr_base->0 * 300 + (match af.pcr_extension {
        Some(x) => x as int,
        None => 0,
    })
}

/// The clock references of PID `pid` in the first `n` packets. The position is
/// that of the last byte of the reference's base.
pub open spec fn sampled(s: TsStream, pid: u16, n: nat) -> Sampling
    decreases n,
{
    if n == 0 {
        Sampling { samples: Seq::empty(), pending: false }
    } else {
        let before = sampled(s, pid, (n - 1) as nat);
        let i = n - 1;
        if s.parsed(i) is Some && s.packet(i).pid == pid && s.field(i) is Some {
            let af = s.field(i)->0;
            let pending = before.pending || af.discontinuity_indicator;
            if af.pcr_base is Some {
                Sampling {
                    samples: before.samples.push(
                        PcrSample {
                            pos: (i * 188 + 10) as u64,
                            pcr: pcr_value(af) as u64,
                            discontinuity: pending,
                        },
                    ),
                    pending: false,
                }
            } else {
                Sampling { pending, ..before }
            }
        } else {
            before
        }
    }
}

/// A stretch of constant rate.
#[derive(Debug, Clone, Copy, PartialEq, Eq, Structural)]
pub struct RateInterval {
    /// Where it starts.
    pub start_pos: u64,
    /// How many bytes it holds.
    pub bytes: u64,
    /// So many bytes arrive...
    pub rate_bytes: u64,
    /// ...in so many 27 MHz ticks.
    pub rate_ticks: u64,
    /// The clock at its start, in 27 MHz ticks, counted on over wraps.
    pub pcr: u128,
    /// It leads to a new time base; its rate is that of the stretch before.
    pub rebased: bool,
}

/// Stretches up to some clock reference.
#[verifier::ext_equal]
pub struct Walk {
    /// They themselves.
    pub intervals: Seq<RateInterval>,
    /// The clock at the last reference, counted on over wraps.
    pub now: int,
    /// Bytes and ticks of the last stretch.
    pub rate: Option<(u64, u64)>,
    /// What makes the references unusable.
    pub error: Option<TsError>,
}

/// Ticks from clock value `now` to the next moment at which the wrapping clock
/// shows `pcr`.
pub open spec fn ticks_to(now: int, pcr: u64) -> int {
    (pcr - now) % (PCR_MODULUS_27MHZ as int)
}

impl Walk {
    /// At the first reference.
    pub open spec fn start(first: PcrSample) -> Walk {
        Walk { intervals: Seq::empty(), now: first.pcr as int, rate: None, error: None }
    }

    /// From reference `a` on to the next one, `b`.
    pub open spec fn step(self, a: PcrSample, b: PcrSample) -> Walk {
        let bytes = (b.pos - a.pos) as u64;
        let delta = ticks_to(self.now, b.pcr);
        if self.error is Some || b.pos <= a.pos {
            self
        } else if b.discontinuity {
            match self.rate {
                None => Walk {
                    error: Some(
                        TsError::Unsupported(
                            "T-STD model: discontinuity before any rate is established",
                        ),
                    ),
                    ..self
                },
                Some((rate_bytes, rate_ticks)) => Walk {
                    intervals: self.intervals.push(
                        RateInterval {
                            start_pos: a.pos,
                            bytes,
                            rate_bytes,
                            rate_ticks,
                            pcr: self.now as u128,
                            rebased: true,
                        },
                    ),
                    now: b.pcr as int,
                    ..self
                },
            }
        } else if delta == 0 {
            Walk {
                error: Some(
                    TsError::Unsupported("T-STD model: repeated PCR value on the PCR_PID"),
                ),
                ..self
            }
        } else {
            Walk {
                intervals: self.intervals.push(
                    RateInterval {
                        start_pos: a.pos,
                        bytes,
                        rate_bytes: bytes,
                        rate_ticks: delta as u64,
                        pcr: self.now as u128,
                        rebased: false,
                    },
                ),
                now: self.now + delta,
                rate: Some((bytes, delta as u64)),
                ..self
            }
        }
    }
}

/// The walk over references 0 to `n`.
pub open spec fn walked(samples: Seq<PcrSample>, n: nat) -> Walk
    decreases n,
{
    if n == 0 {
        Walk::start(samples[0])
    } else {
        walked(samples, (n - 1) as nat).step(samples[n - 1], samples[n as int])
    }
}

/// The stretches that the references make, or why they make none.
pub open spec fn schedule(samples: Seq<PcrSample>) -> Result<Seq<RateInterval>, TsError> {
    if samples.len() < 2 {
        Err(TsError::Unsupported("T-STD model needs at least two PCRs on the PCR_PID"))
    } else {
        let w = walked(samples, (samples.len() - 1) as nat);
        match w.error {
            Some(e) => Err(e),
            None => if w.intervals.len() == 0 {
                Err(TsError::Unsupported("T-STD model: no usable PCR interval on the PCR_PID"))
            } else {
                Ok(w.intervals)
            },
        }
    }
}

/// Positions do not go back.
pub open spec fn in_order(samples: Seq<PcrSample>) -> bool {
    forall|i: int, j: int| 0 <= i <= j < samples.len() ==> samples[i].pos <= samples[j].pos
}

/// The clock references on PID `pcr_pid` of a stream framed as `layout`.
pub fn pcr_samples(bytes: &[u8], layout: TsPacketLayout, pcr_pid: u16) -> (r: Vec<PcrSample>)
    ensures
        r@ == sampled(TsStream { layout, bytes: bytes@ }, pcr_pid, layout.count(bytes@)).samples,
        in_order(r@),
{
    let ghost s = TsStream { layout, bytes: bytes@ };
    let count: usize = bytes.len() / layout.packet_size();
    let mut samples: Vec<PcrSample> = Vec::new();
    let mut pending: bool = false;
    let mut i: usize = 0;
    while i < count
        invariant
            i <= count,
            count == layout.count(bytes@),
            s == (TsStream { layout, bytes: bytes@ }),
            samples@ == sampled(s, pcr_pid, i as nat).samples,
            pending == sampled(s, pcr_pid, i as nat).pending,
            in_order(samples@),
            forall|j: int| 0 <= j < samples@.len() ==> #[trigger] samples@[j].pos <= i * 188,
        decreases count - i,
    {
        proof {
            lemma_frame_in_bounds(bytes@.len(), layout.size(), i as nat);
            assert(i * 188 + 188 <= i * layout.size() + layout.size()) by (nonlinear_arith)
                requires
                    188 <= layout.size(),
            ;
            assert(bytes.len() == bytes@.len());
        }
        let window: &[u8] = layout.nth(bytes, i);
        proof {
            lemma_pcr_base_bound(window@);
        }
        if let Ok(pkt) = TsPacket::parse(window) {
            if pkt.pid == pcr_pid {
                if let Some(af) = &pkt.adaptation_field {
                    if af.discontinuity_indicator {
                        pending = true;
                    }
                    if let Some(base) = af.pcr_base {
                        let extension: u16 = match af.pcr_extension {
                            Some(x) => x,
                            None => 0,
                        };
                        samples.push(
                            PcrSample {
                                pos: (i * 188 + 10) as u64,
                                pcr: base * 300 + extension as u64,
                                discontinuity: pending,
                            },
                        );
                        pending = false;
                    }
                }
            }
        }
        i += 1;
    }
    samples
}

/// The stretches of constant rate between consecutive references.
///
/// A signalled discontinuity carries the rate before it on and takes up the new
/// time base; one before any rate, a reference repeated unchanged, fewer than two
/// references and references that all stand in one place are
/// [`TsError::Unsupported`].
pub fn arrival_schedule(samples: &[PcrSample]) -> (r: Result<Vec<RateInterval>, TsError>)
    requires
        in_order(samples@),
    ensures
        match schedule(samples@) {
            Ok(intervals) => r is Ok && r->Ok_0@ == intervals,
            Err(e) => r == Err::<Vec<RateInterval>, TsError>(e),
        },
{
    if samples.len() < 2 {
        return Err(TsError::Unsupported("T-STD model needs at least two PCRs on the PCR_PID"));
    }
    let mut intervals: Vec<RateInterval> = Vec::new();
    let mut now: u128 = samples[0].pcr as u128;
    let mut rate: Option<(u64, u64)> = None;
    let mut n: usize = 0;
    while n + 1 < samples.len()
        invariant
            n < samples@.len(),
            samples@.len() <= usize::MAX,
            in_order(samples@),
            walked(samples@, n as nat) == (Walk {
                intervals: intervals@,
                now: now as int,
                rate,
                error: None,
            }),
            now <= u64::MAX + n * PCR_MODULUS_27MHZ,
        decreases samples@.len() - n,
    {
        let a: PcrSample = samples[n];
        let b: PcrSample = samples[n + 1];
        let ghost w = walked(samples@, n as nat);
        assert(walked(samples@, (n + 1) as nat) == w.step(a, b));
        assert(n * PCR_MODULUS_27MHZ + PCR_MODULUS_27MHZ == (n + 1) * PCR_MODULUS_27MHZ)
            by (nonlinear_arith);
        assert(n * PCR_MODULUS_27MHZ <= 0xFFFF_FFFF_FFFF_FFFF * PCR_MODULUS_27MHZ)
            by (nonlinear_arith)
            requires
                n <= 0xFFFF_FFFF_FFFF_FFFF,
        ;
        if b.pos > a.pos {
            let bytes: u64 = b.pos - a.pos;
            if b.discontinuity {
                match rate {
                    None => {
                        proof {
                            lemma_error_stays(
                                samples@,
                                (n + 1) as nat,
                                (samples@.len() - 1) as nat,
                            );
                        }
                        return Err(
                            TsError::Unsupported(
                                "T-STD model: discontinuity before any rate is established",
                            ),
                        );
                    },
                    Some((rate_bytes, rate_ticks)) => {
                        intervals.push(
                            RateInterval {
                                start_pos: a.pos,
                                bytes,
                                rate_bytes,
                                rate_ticks,
                                pcr: now,
                                rebased: true,
                            },
                        );
                        now = b.pcr as u128;
                    },
                }
            } else {
                let delta: u64 = ticks_between(now, b.pcr);
                if delta == 0 {
                    proof {
                        lemma_error_stays(samples@, (n + 1) as nat, (samples@.len() - 1) as nat);
                    }
                    return Err(
                        TsError::Unsupported("T-STD model: repeated PCR value on the PCR_PID"),
                    );
                }
                intervals.push(
                    RateInterval {
                        start_pos: a.pos,
                        bytes,
                        rate_bytes: bytes,
                        rate_ticks: delta,
                        pcr: now,
                        rebased: false,
                    },
                );
                now = now + delta as u128;
                rate = Some((bytes, delta));
            }
        }
        n += 1;
        assert(walked(samples@, n as nat) =~= (Walk {
            intervals: intervals@,
            now: now as int,
            rate,
            error: None,
        }));
    }
    if intervals.len() == 0 {
        return Err(TsError::Unsupported("T-STD model: no usable PCR interval on the PCR_PID"));
    }
    Ok(intervals)
}

/// Ticks until the wrapping clock next shows `pcr`.
fn ticks_between(now: u128, pcr: u64) -> (r: u64)
    ensures
        r == ticks_to(now as int, pcr),
        r < PCR_MODULUS_27MHZ,
{
    let modulus: u128 = PCR_MODULUS_27MHZ as u128;
    let r: u128 = (pcr as u128 + modulus - now % modulus) % modulus;
    proof {
        vstd::arithmetic::div_mod::lemma_mod_multiples_vanish(
            1 + now as int / modulus as int,
            pcr - now,
            modulus as int,
        );
        vstd::arithmetic::div_mod::lemma_fundamental_div_mod(now as int, modulus as int);
        assert(modulus * (1 + now as int / modulus as int) == modulus + modulus * (now as int
            / modulus as int)) by (nonlinear_arith);
    }
    r as u64
}

/// The arrival schedule, with the place that the last question was about.
#[derive(Debug, Clone)]
pub struct ArrivalClock {
    intervals: Vec<RateInterval>,
    cursor: usize,
}

/// An arrival schedule and a place in it.
pub struct Arrivals {
    /// The stretches.
    pub intervals: Seq<RateInterval>,
    /// The place.
    pub cursor: int,
}

impl Arrivals {
    /// The place is one of the stretches.
    pub open spec fn wf(self) -> bool {
        0 <= self.cursor < self.intervals.len()
    }

    /// `to` is the stretch that byte `pos` falls in, looked for from here
    /// onwards.
    pub open spec fn reaches(self, pos: u64, to: int) -> bool {
        &&& self.cursor <= to < self.intervals.len()
        &&& forall|k: int|
            self.cursor < k <= to ==> (#[trigger] self.intervals[k]).start_pos <= pos
        &&& to + 1 < self.intervals.len() ==> self.intervals[to + 1].start_pos > pos
    }
}

impl View for ArrivalClock {
    type V = Arrivals;

    closed spec fn view(&self) -> Arrivals {
        Arrivals { intervals: self.intervals@, cursor: self.cursor as int }
    }
}

impl ArrivalClock {
    /// The clock that `samples` imply.
    pub fn build(samples: &[PcrSample]) -> (r: Result<Self, TsError>)
        requires
            in_order(samples@),
        ensures
            match schedule(samples@) {
                Ok(intervals) => r is Ok && r->Ok_0@.intervals == intervals && r->Ok_0@.cursor == 0
                    && r->Ok_0@.wf(),
                Err(e) => r == Err::<Self, TsError>(e),
            },
    {
        match arrival_schedule(samples) {
            Ok(intervals) => Ok(ArrivalClock { intervals, cursor: 0 }),
            Err(e) => Err(e),
        }
    }

    /// The stretches.
    pub fn intervals(&self) -> (r: &Vec<RateInterval>)
        ensures
            r@ == self@.intervals,
    {
        &self.intervals
    }

    /// The stretch that byte `pos` falls in, or the first or last one for a byte
    /// outside. Questions go forward: a position before that of an earlier
    /// question is answered with the stretch of that question.
    pub fn interval_at(&mut self, pos: u64) -> (r: usize)
        requires
            old(self)@.wf(),
        ensures
            final(self)@.wf(),
            final(self)@.intervals == old(self)@.intervals,
            final(self)@.cursor == r,
            old(self)@.reaches(pos, r as int),
    {
        while self.cursor < self.intervals.len() - 1 && self.intervals[self.cursor + 1].start_pos
            <= pos
            invariant
                self@.wf(),
                self.intervals@ == old(self)@.intervals,
                old(self)@.cursor <= self.cursor,
                forall|k: int|
                    old(self)@.cursor < k <= self.cursor ==> (#[trigger] self.intervals@[k]).start_pos
                        <= pos,
            decreases self.intervals@.len() - self.cursor,
        {
            self.cursor = self.cursor + 1;
        }
        self.cursor
    }
}

/// There is at most one answer to where a byte falls.
pub proof fn lemma_stretch_unique(c: Arrivals, pos: u64, a: int, b: int)
    requires
        c.reaches(pos, a),
        c.reaches(pos, b),
    ensures
        a == b,
{
    if a < b {
        assert(c.intervals[a + 1].start_pos <= pos);
    } else if b < a {
        assert(c.intervals[b + 1].start_pos <= pos);
    }
}

/// Every rate is positive and finite: each stretch holds bytes, and both numbers
/// of its rate are positive.
pub proof fn lemma_rates_positive(samples: Seq<PcrSample>, n: nat)
    requires
        in_order(samples),
        n < samples.len(),
    ensures
        forall|i: int|
            0 <= i < walked(samples, n).intervals.len() ==> {
                let iv = #[trigger] walked(samples, n).intervals[i];
                &&& iv.bytes > 0
                &&& iv.rate_bytes > 0
                &&& iv.rate_ticks > 0
            },
        walked(samples, n).rate matches Some((b, t)) ==> b > 0 && t > 0,
    decreases n,
{
    if n > 0 {
        lemma_rates_positive(samples, (n - 1) as nat);
        let w = walked(samples, (n - 1) as nat);
        assert(0 <= ticks_to(w.now, samples[n as int].pcr) < PCR_MODULUS_27MHZ);
        assert(samples[n - 1].pos <= samples[n as int].pos);
    }
}

/// Each stretch starts where the one before it ends.
pub proof fn lemma_stretches_join(samples: Seq<PcrSample>, n: nat)
    requires
        in_order(samples),
        n < samples.len(),
        walked(samples, n).error is None,
    ensures
        forall|i: int|
            0 <= i < walked(samples, n).intervals.len() - 1 ==> (#[trigger] walked(
                samples,
                n,
            ).intervals[i]).start_pos + walked(samples, n).intervals[i].bytes == walked(
                samples,
                n,
            ).intervals[i + 1].start_pos,
        walked(samples, n).intervals.len() > 0 ==> walked(samples, n).intervals.last().start_pos
            + walked(samples, n).intervals.last().bytes == samples[n as int].pos,
        walked(samples, n).intervals.len() == 0 ==> samples[0].pos == samples[n as int].pos,
    decreases n,
{
    if n > 0 {
        lemma_stretches_join(samples, (n - 1) as nat);
        assert(samples[n - 1].pos <= samples[n as int].pos);
        let w = walked(samples, (n - 1) as nat);
        let v = walked(samples, n);
        assert forall|i: int| 0 <= i < v.intervals.len() - 1 implies (
        #[trigger] v.intervals[i]).start_pos + v.intervals[i].bytes == v.intervals[i
            + 1].start_pos by {
            if v.intervals.len() > w.intervals.len() {
                if i + 1 < w.intervals.len() {
                    assert(v.intervals[i] == w.intervals[i]);
                    assert(v.intervals[i + 1] == w.intervals[i + 1]);
                } else {
                    assert(v.intervals[i] == w.intervals.last());
                }
            }
        }
    }
}

/// A wrap of the clock goes unnoticed: references taken from a clock that reads
/// `times` modulo its wrap, each less than a wrap after the one before, give
/// those times back.
pub proof fn lemma_wrap_survived(samples: Seq<PcrSample>, times: Seq<int>, n: nat)
    requires
        n < samples.len(),
        times.len() == samples.len(),
        times[0] == samples[0].pcr,
        forall|i: int|
            0 <= i < samples.len() ==> {
                &&& (#[trigger] samples[i]).pcr == times[i] % (PCR_MODULUS_27MHZ as int)
                &&& !samples[i].discontinuity
            },
        forall|i: int|
            0 <= i < samples.len() - 1 ==> {
                &&& (#[trigger] samples[i]).pos < samples[i + 1].pos
                &&& 0 < times[i + 1] - times[i] < PCR_MODULUS_27MHZ
                &&& 0 <= times[i] <= u128::MAX
            },
    ensures
        walked(samples, n).error is None,
        walked(samples, n).now == times[n as int],
        walked(samples, n).intervals.len() == n,
        forall|i: int|
            0 <= i < n ==> {
                let iv = #[trigger] walked(samples, n).intervals[i];
                &&& iv.pcr == times[i]
                &&& iv.rate_ticks == times[i + 1] - times[i]
                &&& iv.rate_bytes == samples[i + 1].pos - samples[i].pos
            },
    decreases n,
{
    if n > 0 {
        lemma_wrap_survived(samples, times, (n - 1) as nat);
        let w = walked(samples, (n - 1) as nat);
        let m = PCR_MODULUS_27MHZ as int;
        let b = samples[n as int];
        let a = samples[n - 1];
        assert(a.pos < b.pos);
        let q = times[n as int] / m;
        vstd::arithmetic::div_mod::lemma_fundamental_div_mod(times[n as int], m);
        vstd::arithmetic::div_mod::lemma_mod_multiples_vanish(-q, times[n as int] - times[n - 1], m);
        assert(m * (-q) == -(m * q)) by (nonlinear_arith);
        vstd::arithmetic::div_mod::lemma_small_mod((times[n as int] - times[n - 1]) as nat, m as nat);
        assert(ticks_to(w.now, b.pcr) == times[n as int] - times[n - 1]);
    }
}

/// References found unusable stay so.
proof fn lemma_error_stays(samples: Seq<PcrSample>, n: nat, m: nat)
    requires
        n <= m,
        walked(samples, n).error is Some,
    ensures
        walked(samples, m).error == walked(samples, n).error,
    decreases m,
{
    if n < m {
        lemma_error_stays(samples, n, (m - 1) as nat);
    }
}

} // verus!
