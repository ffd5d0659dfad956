//! What writing leaves alone: other streams, held frames and the running clock.
use vstd::prelude::*;

use crate::muxer::deliver::riders_for;
use crate::muxer::emit::{guarded, PCR_MAX_INTERVAL_90K, PCR_STEP_90K};
use crate::muxer::flow::{
    lemma_null_drains_bsys, lemma_null_drains_tb, FlowView, PacketView, PlanView, Slot, AUDIO_TB_RX,
    BSYS_PACKET_SCALED, BSYS_SIZE_SCALED, SYS_TB_KEY, SYS_TB_RX, TB_SIZE,
};
use crate::muxer::frame::Riders;
use crate::muxer::packets::{null_packet, pes_packet, pes_take, psi_packet, psi_take};
use crate::muxer::pes::{frame_error, frame_packets, ring};

verus! {

/// No stream.
pub open spec fn no_stream() -> int {
    -1
}

/// The output of `g` starts with that of `f`, at the same position.
pub open spec fn goes_on(f: FlowView, g: FlowView) -> bool {
    &&& g.drained == f.drained
    &&& f.out.len() <= g.out.len()
    &&& g.out.take(f.out.len() as int) =~= f.out
}

/// `g` has the streams of `f` but for stream `j`, the same frames held, and its
/// clock; its output starts with that of `f`.
#[verifier::opaque]
pub open spec fn steady(f: FlowView, g: FlowView, j: int) -> bool {
    &&& g.tracks.len() == f.tracks.len()
    &&& forall|i: int| 0 <= i < f.tracks.len() && i != j ==> #[trigger] g.tracks[i] == f.tracks[i]
    &&& g.pacer is Some == f.pacer is Some
    &&& g.pacer is Some ==> {
        &&& g.pacer->0.held == f.pacer->0.held
        &&& g.pacer->0.anchor == f.pacer->0.anchor
        &&& g.pacer->0.rate == f.pacer->0.rate
    }
    &&& goes_on(f, g)
}

/// One output after the other.
pub proof fn lemma_goes_on(f: FlowView, g: FlowView, h: FlowView)
    requires
        goes_on(f, g),
        goes_on(g, h),
    ensures
        goes_on(f, h),
{
    let n = f.out.len() as int;
    assert(h.out.take(n) =~= h.out.take(g.out.len() as int).take(n));
}

/// Nothing done leaves everything alone.
pub proof fn lemma_steady_same(f: FlowView, j: int)
    ensures
        steady(f, f, j),
{
    reveal(steady);
}

/// One thing after the other leaves alone what both do.
pub proof fn lemma_steady_on(f: FlowView, g: FlowView, h: FlowView, i: int, j: int)
    requires
        steady(f, g, i),
        steady(g, h, j),
        i == j || i == no_stream(),
    ensures
        steady(f, h, j),
        h.tracks.len() == f.tracks.len(),
{
    reveal(steady);
    lemma_goes_on(f, g, h);
    assert forall|k: int| 0 <= k < f.tracks.len() && k != j implies #[trigger] h.tracks[k]
        == f.tracks[k] by {
        assert(h.tracks[k] == g.tracks[k]);
        assert(g.tracks[k] == f.tracks[k]);
    }
}

/// Waiting for room in a transport buffer leaves every stream alone.
pub proof fn lemma_tb_paced_steady(f: FlowView, key: u16, rx: int)
    ensures
        steady(f, f.tb_paced(key, rx), no_stream()),
    decreases f.pacer->0.tb_level(key, rx, f.pos()),
{
    reveal(steady);
    if f.pacer is Some && rx > 0 {
        let p = f.pacer->0;
        let level = p.tb_level(key, rx, f.pos());
        if !(level + 188 * p.rate <= TB_SIZE * p.rate || level <= 0) {
            lemma_null_drains_tb(f, key, rx);
            let g = f.with_tb(key, level).put(null_packet());
            lemma_tb_paced_steady(g, key, rx);
            lemma_steady_on(f, g, g.tb_paced(key, rx), no_stream(), no_stream());
        }
    }
}

/// Waiting for room in the system buffer leaves every stream alone.
pub proof fn lemma_bsys_paced_steady(f: FlowView)
    ensures
        steady(f, f.bsys_paced(), no_stream()),
    decreases f.pacer->0.bsys_level(f.pos()),
{
    reveal(steady);
    if f.pacer is Some {
        let p = f.pacer->0;
        let level = p.bsys_level(f.pos());
        if !(level + BSYS_PACKET_SCALED * p.rate <= BSYS_SIZE_SCALED * p.rate || level <= 0) {
            lemma_null_drains_bsys(f);
            let g = f.with_bsys(level).put(null_packet());
            lemma_bsys_paced_steady(g);
            lemma_steady_on(f, g, g.bsys_paced(), no_stream(), no_stream());
        }
    }
}

/// A section leaves every stream alone.
pub proof fn lemma_section_steady(
    f: FlowView,
    pid: u16,
    slot: Slot,
    key: u16,
    rest: Seq<u8>,
    start: bool,
)
    ensures
        steady(f, f.section_put(pid, slot, key, rest, start), no_stream()),
    decreases rest.len() + (if start { 1int } else { 0 }),
{
    if start || rest.len() > 0 {
        let a = f.tb_paced(key, SYS_TB_RX as int);
        let b = if key == SYS_TB_KEY { a.bsys_paced() } else { a };
        lemma_tb_paced_steady(f, key, SYS_TB_RX as int);
        lemma_bsys_paced_steady(a);
        lemma_steady_same(a, no_stream());
        lemma_steady_on(f, a, b, no_stream(), no_stream());
        let c = b.put(psi_packet(pid, b.counter(slot), start, rest)).count_table(slot);
        assert(steady(b, c, no_stream())) by {
            reveal(steady);
        }
        lemma_steady_on(f, b, c, no_stream(), no_stream());
        let tail = rest.skip(psi_take(start, rest.len() as int));
        lemma_section_steady(c, pid, slot, key, tail, false);
        let g = c.section_put(pid, slot, key, tail, false);
        lemma_steady_on(f, c, g, no_stream(), no_stream());
    } else {
        lemma_steady_same(f, no_stream());
    }
}

/// The tables leave every stream alone.
pub proof fn lemma_tables_steady(f: FlowView, plan: PlanView, n: int)
    ensures
        steady(f, f.tables_put(plan, n), no_stream()),
    decreases n,
{
    if n > 0 {
        lemma_tables_steady(f, plan, n - 1);
        let a = f.tables_put(plan, n - 1);
        let t = plan.tables[n - 1];
        let key = crate::muxer::emit::tb_key(plan, t.pid);
        lemma_section_steady(a, t.pid, t.slot, key, t.section, true);
        lemma_steady_on(f, a, f.tables_put(plan, n), no_stream(), no_stream());
    } else {
        lemma_steady_same(f, no_stream());
    }
}

proof fn lemma_pcr_steady(f: FlowView, plan: PlanView, p: int, base: u64, ext: u16)
    ensures
        steady(f, f.pcr_put(plan, p, base, ext), no_stream()),
{
    reveal(steady);
}

proof fn lemma_last_pcr_steady(f: FlowView, p: int, base: i64)
    ensures
        steady(f, f.with_last_pcr(p, base), no_stream()),
{
    reveal(steady);
}

proof fn lemma_chain_steady(f: FlowView, plan: PlanView, p: int, target: int)
    ensures
        steady(f, f.chain_put(plan, p, target), no_stream()),
    decreases
            (if f.programs[p].last_pcr is Some {
                target - f.programs[p].last_pcr->0
            } else {
                0
            }),
{
    lemma_steady_same(f, no_stream());
    match f.programs[p].last_pcr {
        None => {},
        Some(last) => if target - last <= PCR_MAX_INTERVAL_90K || !(0 <= p < f.programs.len())
            || target > i64::MAX {
        } else {
            let next = (last + PCR_STEP_90K) as i64;
            let base = ring(if next > 0 { next } else { 0 });
            let a = f.pcr_put(plan, p, base, 0);
            let b = a.with_last_pcr(p, next);
            lemma_pcr_steady(f, plan, p, base, 0);
            lemma_last_pcr_steady(a, p, next);
            lemma_steady_on(f, a, b, no_stream(), no_stream());
            assert(b.programs[p].last_pcr == Some(next));
            lemma_chain_steady(b, plan, p, target);
            lemma_steady_on(f, b, b.chain_put(plan, p, target), no_stream(), no_stream());
        },
    }
}

/// The clock references that are due leave every stream alone.
pub proof fn lemma_clocks_steady(f: FlowView, plan: PlanView, n: int)
    ensures
        steady(f, f.clocks_put(plan, n), no_stream()),
    decreases n,
{
    if n > 0 {
        lemma_clocks_steady(f, plan, n - 1);
        let a = f.clocks_put(plan, n - 1);
        let b = f.clocks_put(plan, n);
        assert(steady(a, b, no_stream())) by {
            reveal(steady);
        }
        lemma_steady_on(f, a, b, no_stream(), no_stream());
    } else {
        lemma_steady_same(f, no_stream());
    }
}

/// A packet of padding leaves every stream alone.
pub proof fn lemma_put_steady(f: FlowView, packet: Seq<u8>)
    ensures
        steady(f, f.put(packet), no_stream()),
{
    reveal(steady);
}

/// Waiting for the clock leaves every stream alone.
pub proof fn lemma_idled_steady(f: FlowView, plan: PlanView, target: int, fuel: nat)
    ensures
        steady(f, f.idled(plan, target, fuel), no_stream()),
    decreases fuel,
{
    if fuel == 0 || f.now() >= target {
        lemma_steady_same(f, no_stream());
    } else {
        let a = f.clocks_put(plan, plan.programs.len() as int);
        let b = a.put(null_packet());
        lemma_clocks_steady(f, plan, plan.programs.len() as int);
        lemma_put_steady(a, null_packet());
        lemma_steady_on(f, a, b, no_stream(), no_stream());
        lemma_idled_steady(b, plan, target, (fuel - 1) as nat);
        let g = b.idled(plan, target, (fuel - 1) as nat);
        lemma_steady_on(f, b, g, no_stream(), no_stream());
    }
}

proof fn lemma_pcrs_before_steady(
    f: FlowView,
    plan: PlanView,
    t: int,
    pts: Option<i64>,
    paced: bool,
)
    ensures
        steady(f, f.pcrs_before(plan, t, pts, paced), no_stream()),
{
    lemma_steady_same(f, no_stream());
    let p = plan.tracks[t].program as int;
    if pts is Some {
        let x = guarded(pts->0);
        lemma_chain_steady(f, plan, p, x as int);
        let a = f.pcr_put(plan, p, ring(x), 0);
        lemma_pcr_steady(f, plan, p, ring(x), 0);
        lemma_last_pcr_steady(a, p, x);
        lemma_steady_on(f, a, a.with_last_pcr(p, x), no_stream(), no_stream());
    }
}

proof fn lemma_packet_steady(
    f: FlowView,
    plan: PlanView,
    t: int,
    riders: Riders,
    start: bool,
    run: Option<int>,
    rest: Seq<u8>,
)
    requires
        0 <= t < f.tracks.len(),
    ensures
        steady(f, f.packet_put(plan, t, riders, start, run, rest), t),
{
    let g = f.packet_put(plan, t, riders, start, run, rest);
    let field = f.packet_field(plan, t, riders, start, run, rest.len() as int);
    let packet = pes_packet(plan.tracks[t].pid, f.tracks[t].cc, start, field, rest);
    assert(g.out == f.out + packet);
    assert((f.out + packet).take(f.out.len() as int) =~= f.out);
    reveal(steady);
}

proof fn lemma_rest_steady(
    f: FlowView,
    plan: PlanView,
    t: int,
    riders: Riders,
    start: bool,
    run: Option<int>,
    rest: Seq<u8>,
)
    requires
        0 <= t < f.tracks.len(),
    ensures
        steady(f, f.rest_put(plan, t, riders, start, run, rest), t),
    decreases rest.len(),
{
    let a = f.paced_for(plan, t);
    let left = rest.len() as int;
    let n = pes_take(a.packet_field(plan, t, riders, start, run, left), left);
    if left == 0 || n <= 0 || n > left {
        lemma_steady_same(f, t);
    } else {
        lemma_steady_same(f, no_stream());
        lemma_tb_paced_steady(f, plan.tracks[t].pid, AUDIO_TB_RX as int);
        lemma_steady_on(f, f, a, no_stream(), no_stream());
        let b = a.packet_put(plan, t, riders, start, run, rest);
        assert(a.tracks.len() == f.tracks.len()) by {
            reveal(steady);
        }
        lemma_packet_steady(a, plan, t, riders, start, run, rest);
        lemma_steady_on(f, a, b, no_stream(), t);
        let next = a.run_after(plan, t, riders, start, run, left);
        lemma_rest_steady(b, plan, t, riders, false, next, rest.skip(n));
        let g = b.rest_put(plan, t, riders, false, next, rest.skip(n));
        lemma_steady_on(f, b, g, t, t);
    }
}

proof fn lemma_after_splice_steady(f: FlowView, t: int, x: Option<(u8, u8)>)
    requires
        0 <= t < f.tracks.len(),
    ensures
        steady(f, f.with_after_splice(t, x), t),
        f.with_after_splice(t, x).tracks.len() == f.tracks.len(),
{
    reveal(steady);
}

proof fn lemma_pes_steady(f: FlowView, plan: PlanView, t: int, riders: Riders, pes: Seq<u8>)
    requires
        0 <= t < f.tracks.len(),
    ensures
        steady(f, f.pes_put(plan, t, riders, pes), t),
{
    match riders.splice {
        None => {
            lemma_rest_steady(f, plan, t, riders, true, None, pes);
        },
        Some(s) => {
            let a = f.with_after_splice(t, None);
            let b = a.rest_put(plan, t, riders, true, None, pes);
            lemma_after_splice_steady(f, t, None);
            lemma_rest_steady(a, plan, t, riders, true, None, pes);
            lemma_steady_on(f, a, b, t, t);
            let x = Some((1u8, s.post_splice_packets));
            lemma_after_splice_steady(b, t, x);
            lemma_steady_on(f, b, b.with_after_splice(t, x), t, t);
        },
    }
}

pub(crate) proof fn lemma_frame_steady(
    f: FlowView,
    plan: PlanView,
    t: int,
    riders: Riders,
    packets: Seq<Seq<u8>>,
    n: int,
)
    requires
        0 <= t < f.tracks.len(),
    ensures
        steady(f, f.frame_put(plan, t, riders, packets, n), t),
    decreases n,
{
    if n <= 0 {
        lemma_steady_same(f, t);
    } else {
        lemma_frame_steady(f, plan, t, riders, packets, n - 1);
        let a = f.frame_put(plan, t, riders, packets, n - 1);
        lemma_steady_same(f, t);
        lemma_steady_on(f, f, a, t, t);
        let mine = riders_for(riders, n - 1, packets.len() - 1);
        lemma_pes_steady(a, plan, t, mine, packets[n - 1]);
        lemma_steady_on(f, a, f.frame_put(plan, t, riders, packets, n), t, t);
    }
}

/// A frame that is sent leaves every other stream alone, and what is held.
pub proof fn lemma_sent_steady(f: FlowView, plan: PlanView, t: int, pkt: PacketView, paced: bool)
    requires
        0 <= t < f.tracks.len(),
    ensures
        steady(f, f.sent(plan, t, pkt, paced).flow, t),
{
    reveal(FlowView::sent);
    let track = plan.tracks[t];
    let p = track.program as int;
    let own = track.pid == plan.programs[p].pcr_pid;
    let b = f.pcrs_before(plan, t, pkt.pts, paced);
    lemma_pcrs_before_steady(f, plan, t, pkt.pts, paced);
    lemma_steady_same(b, t);
    lemma_steady_on(f, b, b, no_stream(), t);
    if frame_error(track.stream_id, pkt.pts, pkt.dts, pkt.data.len() as int) is None {
        let packets = frame_packets(track.stream_id, pkt.pts, pkt.dts, pkt.data);
        let inline = own && pkt.pts is Some;
        let c = if inline { b.with_last_pcr(p, guarded(pkt.pts->0)) } else { b };
        let riders = Riders {
            pcr: if inline { Some((ring(guarded(pkt.pts->0)), 0u16)) } else { None },
            random_access: pkt.keyframe && (!own || inline),
            splice: c.tracks[t].splice,
        };
        let d = c.splice_taken(t);
        assert(steady(b, d, t)) by {
            reveal(steady);
        }
        lemma_steady_on(f, b, d, t, t);
        let n = packets.len() as int;
        lemma_frame_steady(d, plan, t, riders, packets, n);
        lemma_steady_on(f, d, d.frame_put(plan, t, riders, packets, n), t, t);
    }
}

} // verus!
