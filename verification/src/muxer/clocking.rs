//! Without pacing, no clock reference comes too long after the one before it.
use vstd::prelude::*;

use crate::clock::PCR_MODULUS_27MHZ;
use crate::muxer::deliver::riders_for;
use crate::muxer::emit::{PCR_MAX_INTERVAL_90K, PCR_STEP_90K};
use crate::muxer::flow::{FlowView, PlanView, ProgramFlow};
use crate::muxer::frame::Riders;
use crate::muxer::packets::{pcr_packet, Field};
use crate::muxer::pes::{lemma_ring_bound, ring};
use crate::muxer::plan_laws::laid_out;
use crate::muxer::read_back::{
    carries_field, lemma_packets_on_put, lemma_pcr_packet_read_back, lemma_step_read_back,
    packets_on, stepped,
};
use crate::muxer::settling::{at_home, homed, is_clocked};
use crate::packet::parse::{parse_packet_spec, TsPacketView};
use crate::validate::pcr::{ext_or_zero, pcr_ticks, ticks_between, MAX_PCR_INTERVAL_27MHZ};

verus! {

/// What an observer of a clock knows.
pub struct Heard {
    /// The last clock value.
    pub last: Option<u64>,
    /// The next one starts a new time base.
    pub pending: bool,
}

impl Heard {
    /// After packet `p`.
    pub open spec fn after(self, p: TsPacketView) -> Heard {
        match p.adaptation_field {
            None => self,
            Some(af) => match af.pcr_base {
                None => Heard { pending: self.pending || af.discontinuity_indicator, ..self },
                Some(b) => Heard {
                    last: Some(pcr_ticks(b, ext_or_zero(af.pcr_extension))),
                    pending: false,
                },
            },
        }
    }

    /// The clock value of packet `p` comes too long after the one before it.
    pub open spec fn is_late(self, p: TsPacketView) -> bool {
        match (p.adaptation_field, self.last) {
            (Some(af), Some(x)) => {
                &&& !self.pending
                &&& !af.discontinuity_indicator
                &&& af.pcr_base matches Some(b)
                &&& ticks_between(x, pcr_ticks(b, ext_or_zero(af.pcr_extension)))
                    > MAX_PCR_INTERVAL_27MHZ
            },
            _ => false,
        }
    }
}

/// What the packets `ps` tell of a clock.
pub open spec fn heard(ps: Seq<TsPacketView>) -> Heard
    decreases ps.len(),
{
    if ps.len() == 0 {
        Heard { last: None, pending: false }
    } else {
        heard(ps.drop_last()).after(ps.last())
    }
}

/// No clock value of the packets `ps` is late.
#[verifier::opaque]
pub open spec fn none_late(ps: Seq<TsPacketView>) -> bool
    decreases ps.len(),
{
    ps.len() == 0 || (none_late(ps.drop_last()) && !heard(ps.drop_last()).is_late(ps.last()))
}

/// One more packet.
pub proof fn lemma_late_more(ps: Seq<TsPacketView>, p: TsPacketView)
    ensures
        heard(ps.push(p)) == heard(ps).after(p),
        none_late(ps) && !heard(ps).is_late(p) ==> none_late(ps.push(p)),
{
    reveal(none_late);
    assert(ps.push(p).drop_last() =~= ps);
}

/// No packet is late after those before it.
pub proof fn lemma_not_late_at(ps: Seq<TsPacketView>, k: int)
    requires
        none_late(ps),
        0 <= k < ps.len(),
    ensures
        !heard(ps.take(k)).is_late(ps[k]),
    decreases ps.len(),
{
    reveal(none_late);
    let head = ps.drop_last();
    if k < head.len() {
        lemma_not_late_at(head, k);
        assert(head.take(k) =~= ps.take(k));
    } else {
        assert(ps.take(k) =~= head);
    }
}

/// The state of a program knows what was heard of its clock: the last value, or
/// that the next one starts a new time base.
pub open spec fn knows(h: Heard, pf: ProgramFlow) -> bool {
    &&& pf.last_pcr matches Some(b) ==> b >= 0
    &&& {
        ||| pf.discontinuity
        ||| h.pending
        ||| h.last is None
        ||| pf.last_pcr matches Some(b) && h.last == Some(pcr_ticks(ring(b), 0))
    }
}

/// No clock was ever late, and every program knows its own.
#[verifier::opaque]
pub open spec fn on_time(out: Seq<u8>, programs: Seq<ProgramFlow>, plan: PlanView) -> bool {
    &&& forall|p: int|
        0 <= p < plan.programs.len() ==> ((#[trigger] programs[p]).last_pcr matches Some(b) ==> b
            >= 0)
    &&& forall|t: int|
        0 <= t < plan.tracks.len() && is_clocked(plan, t) ==> none_late(
            packets_on(out, (#[trigger] plan.tracks[t]).pid),
        ) && knows(
            heard(packets_on(out, plan.tracks[t].pid)),
            programs[plan.tracks[t].program as int],
        )
}

/// A timestamp on the wire.
pub(crate) proof fn lemma_ring_is_modular(t: i64)
    requires
        t >= 0,
    ensures
        ring(t) == t % 0x2_0000_0000,
{
    let u = t as u64;
    assert(u & 0x1_FFFF_FFFF == u % 0x2_0000_0000) by (bit_vector);
}

/// A clock that moves on within the interval is not late.
pub(crate) proof fn lemma_moves_on(a: i64, b: i64)
    requires
        0 <= a <= b,
        b - a <= PCR_MAX_INTERVAL_90K,
    ensures
        ticks_between(pcr_ticks(ring(a), 0), pcr_ticks(ring(b), 0)) <= MAX_PCR_INTERVAL_27MHZ,
{
    lemma_ring_is_modular(a);
    lemma_ring_is_modular(b);
    let m = 0x2_0000_0000int;
    let ra = ring(a) as int;
    let rb = ring(b) as int;
    let d = b - a;
    assert(rb == ra + d || rb == ra + d - m);
    assert(pcr_ticks(ring(a), 0) == ra * 300);
    assert(pcr_ticks(ring(b), 0) == rb * 300);
    assert(PCR_MODULUS_27MHZ == m * 300);
    assert((rb * 300 - ra * 300) % (m * 300) == d * 300);
}

/// An output with nothing in it is on time.
pub proof fn lemma_nothing_on_time(out: Seq<u8>, programs: Seq<ProgramFlow>, plan: PlanView)
    requires
        out.len() == 0,
        forall|p: int|
            0 <= p < plan.programs.len() ==> ((#[trigger] programs[p]).last_pcr matches Some(b)
                ==> b >= 0),
        plan.wf(),
    ensures
        on_time(out, programs, plan),
{
    reveal(on_time);
    reveal(none_late);
    assert forall|t: int| 0 <= t < plan.tracks.len() && is_clocked(plan, t) implies none_late(
        packets_on(out, (#[trigger] plan.tracks[t]).pid),
    ) && knows(
        heard(packets_on(out, plan.tracks[t].pid)),
        programs[plan.tracks[t].program as int],
    ) by {
        reveal(packets_on);
        assert(packets_on(out, plan.tracks[t].pid) =~= Seq::empty());
        let _ = programs[plan.tracks[t].program as int].last_pcr;
    }
}

/// What a clock reference on its own tells.
proof fn lemma_field_heard(h: Heard, p: TsPacketView, f: Field)
    requires
        carries_field(p, f),
        f.pcr is None ==> !f.discontinuity,
    ensures
        f.pcr is None ==> h.after(p) == h && !h.is_late(p),
        f.pcr matches Some((base, ext)) ==> {
            &&& h.after(p) == Heard { last: Some(pcr_ticks(base, ext)), pending: false }
            &&& h.is_late(p) ==> !f.discontinuity && !h.pending && h.last is Some
                && ticks_between(h.last->0, pcr_ticks(base, ext)) > MAX_PCR_INTERVAL_27MHZ
        },
{
}

/// A clock reference on its own, no later than the interval after the last one.
pub(crate) proof fn lemma_pcr_on_time(f: FlowView, plan: PlanView, p: int, next: i64)
    requires
        homed(plan),
        on_time(f.out, f.programs, plan),
        0 <= p < plan.programs.len(),
        f.programs.len() == plan.programs.len(),
        forall|t: int| 0 <= t < f.tracks.len() ==> (#[trigger] f.tracks[t]).cc < 16,
        f.tracks.len() == plan.tracks.len(),
        next >= 0,
        f.programs[p].last_pcr matches Some(l) ==> l <= next <= l + PCR_MAX_INTERVAL_90K,
    ensures
        ({
            let g = f.pcr_put(plan, p, ring(next), 0).with_last_pcr(p, next);
            on_time(g.out, g.programs, plan)
        }),
{
    let g = f.pcr_put(plan, p, ring(next), 0).with_last_pcr(p, next);
    let pid = plan.programs[p].pcr_pid;
    reveal(on_time);
    reveal(laid_out);
    lemma_ring_bound(next);
    match plan.programs[p].pcr_track {
        None => {},
        Some(x) => {
            let cc = ((f.tracks[x as int].cc + 15) % 16) as u8;
            lemma_pcr_packet_read_back(pid, cc, f.programs[p].discontinuity, ring(next), 0);
        },
    }
    assert forall|t: int| 0 <= t < plan.tracks.len() && is_clocked(plan, t) implies none_late(
        packets_on(g.out, (#[trigger] plan.tracks[t]).pid),
    ) && knows(
        heard(packets_on(g.out, plan.tracks[t].pid)),
        g.programs[plan.tracks[t].program as int],
    ) by {
        let q = plan.tracks[t].pid;
        let ps = packets_on(f.out, q);
        let h = heard(ps);
        assert(knows(h, f.programs[plan.tracks[t].program as int]));
        match plan.programs[p].pcr_track {
            None => {
                assert(plan.tracks[t].program != p) by {
                    reveal(at_home);
                    let _ = plan.programs[plan.tracks[t].program as int];
                }
            },
            Some(x) => {
                let cc = ((f.tracks[x as int].cc + 15) % 16) as u8;
                let d = f.programs[p].discontinuity;
                let packet = pcr_packet(pid, cc, d, ring(next), 0);
                let v = parse_packet_spec(packet)->Ok_0;
                assert(g.out == f.out + packet);
                lemma_packets_on_put(f.out, packet, q);
                if q == pid {
                    assert(plan.tracks[t].program == p) by {
                        reveal(at_home);
                    }
                    lemma_field_heard(
                        h,
                        v,
                        crate::muxer::packets::pcr_field(d, ring(next), 0),
                    );
                    if f.programs[p].last_pcr is Some {
                        lemma_moves_on(f.programs[p].last_pcr->0, next);
                    }
                    lemma_late_more(ps, v);
                } else {
                    assert(plan.tracks[t].program != p);
                }
            },
        }
    }
}

/// What the clocks that lead up to `target` leave behind.
pub open spec fn led_up(f: FlowView, g: FlowView, p: int, target: int) -> bool {
    &&& g.tracks == f.tracks
    &&& g.pacer == f.pacer
    &&& g.programs.len() == f.programs.len()
    &&& match f.programs[p].last_pcr {
        None => g == f,
        Some(a) => g.programs[p].last_pcr matches Some(b) && a <= b && target - b
            <= PCR_MAX_INTERVAL_90K && (b == a || b <= target),
    }
    &&& same_elsewhere(f.programs, g.programs, p)
}

/// Every other program's clock is where it was.
pub open spec fn same_elsewhere(a: Seq<ProgramFlow>, b: Seq<ProgramFlow>, p: int) -> bool {
    forall|q: int| 0 <= q < a.len() && q != p ==> (#[trigger] b[q]).last_pcr == a[q].last_pcr
}

/// The clock references that lead up to `target` are on time.
pub(crate) proof fn lemma_chain_on_time(f: FlowView, plan: PlanView, p: int, target: int)
    requires
        homed(plan),
        on_time(f.out, f.programs, plan),
        0 <= p < plan.programs.len(),
        f.programs.len() == plan.programs.len(),
        forall|t: int| 0 <= t < f.tracks.len() ==> (#[trigger] f.tracks[t]).cc < 16,
        f.tracks.len() == plan.tracks.len(),
        target <= i64::MAX,
    ensures
        ({
            let g = f.chain_put(plan, p, target);
            on_time(g.out, g.programs, plan) && led_up(f, g, p, target)
        }),
    decreases
            (if f.programs[p].last_pcr is Some {
                target - f.programs[p].last_pcr->0
            } else {
                0
            }),
{
    match f.programs[p].last_pcr {
        None => {},
        Some(last) => {
            assert(last >= 0) by {
                reveal(on_time);
            }
            if target - last > PCR_MAX_INTERVAL_90K {
                let next = (last + PCR_STEP_90K) as i64;
                lemma_pcr_on_time(f, plan, p, next);
                let g = f.pcr_put(plan, p, ring(next), 0).with_last_pcr(p, next);
                assert(g.programs[p].last_pcr == Some(next));
                lemma_chain_on_time(g, plan, p, target);
            }
        },
    }
}

/// What is heard of the clock on stream `t` after a PES packet with `riders`.
pub open spec fn heard_with(h: Heard, pcr: Option<(u64, u16)>) -> Heard {
    match pcr {
        Some((base, ext)) => Heard { last: Some(pcr_ticks(base, ext)), pending: false },
        None => h,
    }
}

/// The programs after a clock value in a frame of program `p`.
pub open spec fn signalled_with(
    programs: Seq<ProgramFlow>,
    p: int,
    pcr: Option<(u64, u16)>,
) -> Seq<ProgramFlow> {
    match pcr {
        Some(_) => programs.update(p, ProgramFlow { discontinuity: false, ..programs[p] }),
        None => programs,
    }
}

/// A clock value in a frame may come where the clock is `h`.
pub open spec fn may_come(h: Heard, pf: ProgramFlow, pcr: Option<(u64, u16)>) -> bool {
    pcr matches Some((base, ext)) ==> pf.discontinuity || h.pending || (h.last matches Some(x)
        ==> ticks_between(x, pcr_ticks(base, ext)) <= MAX_PCR_INTERVAL_27MHZ)
}

/// The rest of a PES packet brings at most one clock value, in its first packet.
proof fn lemma_rest_heard(
    f: FlowView,
    plan: PlanView,
    t: int,
    riders: Riders,
    start: bool,
    run: Option<int>,
    rest: Seq<u8>,
)
    requires
        0 <= t < plan.tracks.len(),
        f.tracks.len() == plan.tracks.len(),
        f.tracks[t].cc < 16,
        f.pacer is None,
        0 <= plan.tracks[t].program < f.programs.len(),
        plan.tracks[t].pid < 0x1FFF,
        riders.wf(),
        start ==> rest.len() > 0,
    ensures
        ({
            let g = f.rest_put(plan, t, riders, start, run, rest);
            let pid = plan.tracks[t].pid;
            let pcr = if start { riders.pcr } else { None };
            let pf = f.programs[plan.tracks[t].program as int];
            &&& none_late(packets_on(f.out, pid)) && may_come(
                heard(packets_on(f.out, pid)),
                pf,
                pcr,
            ) ==> none_late(packets_on(g.out, pid))
            &&& heard(packets_on(g.out, pid)) == heard_with(heard(packets_on(f.out, pid)), pcr)
            &&& g.programs == signalled_with(f.programs, plan.tracks[t].program as int, pcr)
            &&& g.pacer is None
            &&& g.tracks.len() == f.tracks.len()
            &&& g.tracks[t].cc < 16
        }),
    decreases rest.len(),
{
    if rest.len() > 0 {
        let left = rest.len() as int;
        let pid = plan.tracks[t].pid;
        let a = f.paced_for(plan, t);
        assert(a == f);
        let p = lemma_step_read_back(f, plan, t, riders, start, run, rest);
        let field = a.packet_field(plan, t, riders, start, run, left);
        let ps = packets_on(f.out, pid);
        lemma_field_heard(heard(ps), p, field);
        lemma_late_more(ps, p);
        let b = stepped(f, plan, t, riders, start, run, rest);
        assert(b.programs == signalled_with(
            f.programs,
            plan.tracks[t].program as int,
            if start { riders.pcr } else { None },
        ));
        lemma_rest_heard(
            b,
            plan,
            t,
            riders,
            false,
            a.run_after(plan, t, riders, start, run, left),
            rest.skip(p.payload.len() as int),
        );
    }
}

/// The PES packets of a frame bring at most one clock value.
pub proof fn lemma_frame_heard(
    f: FlowView,
    plan: PlanView,
    t: int,
    riders: Riders,
    packets: Seq<Seq<u8>>,
    n: int,
)
    requires
        0 <= t < plan.tracks.len(),
        f.tracks.len() == plan.tracks.len(),
        f.tracks[t].cc < 16,
        f.pacer is None,
        0 <= plan.tracks[t].program < f.programs.len(),
        plan.tracks[t].pid < 0x1FFF,
        riders.wf(),
        0 <= n <= packets.len(),
        forall|i: int| 0 <= i < packets.len() ==> (#[trigger] packets[i]).len() > 0,
    ensures
        ({
            let g = f.frame_put(plan, t, riders, packets, n);
            let pid = plan.tracks[t].pid;
            let pcr = if n > 0 { riders.pcr } else { None };
            let pf = f.programs[plan.tracks[t].program as int];
            &&& none_late(packets_on(f.out, pid)) && may_come(
                heard(packets_on(f.out, pid)),
                pf,
                pcr,
            ) ==> none_late(packets_on(g.out, pid))
            &&& heard(packets_on(g.out, pid)) == heard_with(heard(packets_on(f.out, pid)), pcr)
            &&& g.programs == signalled_with(f.programs, plan.tracks[t].program as int, pcr)
            &&& g.pacer is None
            &&& g.tracks.len() == f.tracks.len()
            &&& g.tracks[t].cc < 16
        }),
    decreases n,
{
    if n > 0 {
        lemma_frame_heard(f, plan, t, riders, packets, n - 1);
        let a = f.frame_put(plan, t, riders, packets, n - 1);
        let mine = riders_for(riders, n - 1, packets.len() - 1);
        let pes = packets[n - 1];
        match mine.splice {
            None => {
                lemma_rest_heard(a, plan, t, mine, true, None, pes);
            },
            Some(_) => {
                lemma_rest_heard(a.with_after_splice(t, None), plan, t, mine, true, None, pes);
            },
        }
    }
}

} // verus!
