//! What is read of one stream while the multiplexer works through its frames,
//! paced or not.
use vstd::prelude::*;

use crate::muxer::deliver::{
    decode_time, first_due, held_count, held_due, lead_of, lemma_first_due, ticks_27,
};
use crate::muxer::emit::guarded;
use crate::muxer::flow::{FlowView, PacketView, PlanView};
use crate::muxer::frame::Riders;
use crate::muxer::frame_read_back::{
    gains, hands_out, is_ready, lemma_frame_parses, lemma_frame_put_read_back,
};
use crate::muxer::packets::null_packet;
use crate::muxer::pes::{frame_error, frame_packets, lemma_ring_bound, ring};
use crate::muxer::plan_laws::laid_out;
use crate::muxer::read_back::{
    counted_on, lemma_counted_on_goes_on, lemma_empty_packets_count, lemma_null_elsewhere,
    lemma_pcr_now_fits, packets_on,
};
use crate::muxer::steady::{lemma_clocks_steady, lemma_idled_steady, lemma_sent_steady, steady};
use crate::muxer::stream_read_back::{
    are_quiet, has_pcr_pid, lemma_pcr_put_quiet, lemma_pcrs_before_quiet, lemma_sent_read_back,
    only_clocks, owns_pid, units_of,
};
use crate::muxer::well_formed::{
    lemma_clock_started_sound, lemma_clocks_sound, lemma_held_sound, lemma_idled_sound,
    lemma_null_put, orderly, sound,
};
use crate::packet::parse::TsPacketView;
use crate::pes::parse::PesPacketView;
use crate::pes::reassemble::{is_quiet, lemma_quiet_ignored, lemma_read_goes_on, Reassembly};

verus! {

/// The frames of stream `t` that are held.
pub open spec fn held_on(f: FlowView, t: int) -> Seq<PacketView> {
    match f.pacer {
        Some(p) => p.held[t],
        None => Seq::empty(),
    }
}

/// The PES packets that the frames `frames` of stream `t` are read back as.
pub open spec fn units_of_all(plan: PlanView, t: int, frames: Seq<PacketView>) -> Seq<PesPacketView>
    decreases frames.len(),
{
    if frames.len() == 0 {
        Seq::empty()
    } else {
        units_of_all(plan, t, frames.drop_last()) + units_of(plan, t, frames.last())
    }
}

proof fn lemma_units_joined(plan: PlanView, t: int, a: Seq<PacketView>, b: Seq<PacketView>)
    ensures
        units_of_all(plan, t, a + b) == units_of_all(plan, t, a) + units_of_all(plan, t, b),
    decreases b.len(),
{
    if b.len() == 0 {
        assert(a + b =~= a);
        assert(units_of_all(plan, t, a + b) =~= units_of_all(plan, t, a) + units_of_all(plan, t, b));
    } else {
        lemma_units_joined(plan, t, a, b.drop_last());
        assert((a + b).drop_last() =~= a + b.drop_last());
        assert((a + b).last() == b.last());
        assert(units_of_all(plan, t, a + b) =~= units_of_all(plan, t, a) + units_of_all(plan, t, b));
    }
}

/// From `f` to `g`, the packets `ps` come on the PID of stream `t`. They count
/// on, and a reassembler in state `s` that is fed with them hands out the frames
/// `frames`.
#[verifier::opaque]
pub open spec fn brings(
    f: FlowView,
    g: FlowView,
    plan: PlanView,
    t: int,
    frames: Seq<PacketView>,
    s: Reassembly,
    ps: Seq<TsPacketView>,
) -> bool {
    let pid = plan.tracks[t].pid;
    &&& packets_on(g.out, pid) == packets_on(f.out, pid) + ps
    &&& hands_out(s, ps, units_of_all(plan, t, frames))
    &&& counted_on(ps, f.tracks[t].cc) == Some(g.tracks[t].cc)
}

/// After it, the reassembler can go on.
pub proof fn lemma_brings_ready(
    f: FlowView,
    g: FlowView,
    plan: PlanView,
    t: int,
    frames: Seq<PacketView>,
    s: Reassembly,
    ps: Seq<TsPacketView>,
)
    requires
        brings(f, g, plan, t, frames, s, ps),
    ensures
        is_ready(s.read(ps).state),
{
    reveal(brings);
    reveal(hands_out);
}

/// Reading goes on: what is handed out of two runs, one after the other.
proof fn lemma_hands_out_on(
    s: Reassembly,
    a: Seq<TsPacketView>,
    b: Seq<TsPacketView>,
    x: Seq<PesPacketView>,
    y: Seq<PesPacketView>,
)
    requires
        hands_out(s, a, x),
        hands_out(s.read(a).state, b, y),
    ensures
        hands_out(s, a + b, x + y),
{
    reveal(hands_out);
    lemma_read_goes_on(s, a, b);
    let ra = s.read(a);
    let rb = ra.state.read(b);
    lemma_regrouped(ra.units, rb.units, rb.state.closing());
    lemma_regrouped(ra.units, ra.state.closing(), y);
    lemma_regrouped(s.closing(), x, y);
}

proof fn lemma_regrouped<A>(a: Seq<A>, b: Seq<A>, c: Seq<A>)
    ensures
        a + b + c == a + (b + c),
{
    assert(a + b + c =~= a + (b + c));
}

/// One step after the other brings what both bring.
pub proof fn lemma_brings_more(
    f: FlowView,
    g: FlowView,
    h: FlowView,
    plan: PlanView,
    t: int,
    x: Seq<PacketView>,
    y: Seq<PacketView>,
    s: Reassembly,
    a: Seq<TsPacketView>,
    b: Seq<TsPacketView>,
)
    requires
        brings(f, g, plan, t, x, s, a),
        brings(g, h, plan, t, y, s.read(a).state, b),
    ensures
        brings(f, h, plan, t, x + y, s, a + b),
{
    reveal(brings);
    let pid = plan.tracks[t].pid;
    lemma_regrouped(packets_on(f.out, pid), a, b);
    lemma_counted_on_goes_on(a, b, f.tracks[t].cc);
    lemma_units_joined(plan, t, x, y);
    lemma_hands_out_on(s, a, b, units_of_all(plan, t, x), units_of_all(plan, t, y));
}

/// Packets that carry nothing and repeat the last counter bring no frame.
proof fn lemma_brings_quiet(
    f: FlowView,
    g: FlowView,
    plan: PlanView,
    t: int,
    s: Reassembly,
    qs: Seq<TsPacketView>,
)
    requires
        packets_on(g.out, plan.tracks[t].pid) == packets_on(f.out, plan.tracks[t].pid) + qs,
        are_quiet(qs),
        forall|i: int|
            0 <= i < qs.len() ==> (#[trigger] qs[i]).continuity_counter == (f.tracks[t].cc + 15)
                % 16,
        g.tracks[t].cc == f.tracks[t].cc,
        is_ready(s),
    ensures
        brings(f, g, plan, t, Seq::empty(), s, qs),
{
    reveal(brings);
    assert(hands_out(s, qs, units_of_all(plan, t, Seq::empty()))) by {
        reveal(hands_out);
        lemma_quiet_ignored(s, qs);
        assert(s.read(qs).units + s.closing() =~= s.closing() + Seq::<PesPacketView>::empty());
    }
    assert forall|i: int| 0 <= i < qs.len() implies (#[trigger] qs[i]).payload.len() == 0
        && qs[i].continuity_counter == (f.tracks[t].cc + 15) % 16 by {
        assert(is_quiet(qs[i]));
    }
    lemma_empty_packets_count(qs, f.tracks[t].cc);
}

/// What leaves the PID alone brings nothing.
pub proof fn lemma_brings_nothing(f: FlowView, g: FlowView, plan: PlanView, t: int, s: Reassembly)
    requires
        packets_on(g.out, plan.tracks[t].pid) == packets_on(f.out, plan.tracks[t].pid),
        g.tracks[t].cc == f.tracks[t].cc,
        is_ready(s),
    ensures
        brings(f, g, plan, t, Seq::empty(), s, Seq::empty()),
        s.read(Seq::empty()).state == s,
{
    let none = Seq::<TsPacketView>::empty();
    assert(packets_on(f.out, plan.tracks[t].pid) + none =~= packets_on(f.out, plan.tracks[t].pid));
    lemma_brings_quiet(f, g, plan, t, s, none);
}

/// The clock references of a program on the PID of a stream are that stream's.
proof fn lemma_clocks_own(
    f: FlowView,
    plan: PlanView,
    p: int,
    t: int,
    qs: Seq<TsPacketView>,
)
    requires
        laid_out(plan),
        0 <= p < plan.programs.len(),
        0 <= t < plan.tracks.len(),
        only_clocks(qs, f, plan, p, plan.tracks[t].pid),
    ensures
        has_pcr_pid(plan, p),
        forall|i: int|
            0 <= i < qs.len() ==> (#[trigger] qs[i]).continuity_counter == (f.tracks[t].cc + 15)
                % 16,
{
    reveal(laid_out);
    assert(plan.programs[p].pcr_pid < 0x2000);
    if qs.len() > 0 {
        let x = plan.programs[p].pcr_track->0 as int;
        assert(x < plan.tracks.len());
        assert(plan.tracks[x].pid == plan.tracks[t].pid);
        assert(x == t);
    }
}

/// The clock references that are due bring no frame.
pub proof fn lemma_clocks_bring(f: FlowView, plan: PlanView, t: int, n: int, s: Reassembly) -> (ps:
    Seq<TsPacketView>)
    requires
        laid_out(plan),
        0 <= t < plan.tracks.len(),
        n <= plan.programs.len(),
        is_ready(s),
    ensures
        brings(f, f.clocks_put(plan, n), plan, t, Seq::empty(), s, ps),
    decreases n,
{
    reveal(laid_out);
    if n <= 0 {
        lemma_brings_nothing(f, f, plan, t, s);
        Seq::empty()
    } else {
        let none = Seq::<PacketView>::empty();
        let a = f.clocks_put(plan, n - 1);
        let b = f.clocks_put(plan, n);
        let ps = lemma_clocks_bring(f, plan, t, n - 1, s);
        lemma_brings_ready(f, a, plan, t, none, s, ps);
        let s1 = s.read(ps).state;
        assert(none + none =~= none);
        if a.anchored() && a.pcr_due(n - 1) {
            let (base, ext) = a.pcr_now();
            lemma_pcr_now_fits(a);
            assert(plan.programs[n - 1].pcr_pid < 0x2000);
            let qs = lemma_pcr_put_quiet(a, plan, n - 1, base, ext, plan.tracks[t].pid);
            lemma_clocks_own(a, plan, n - 1, t, qs);
            lemma_brings_quiet(a, b, plan, t, s1, qs);
            lemma_brings_more(f, a, b, plan, t, none, none, s, ps, qs);
            ps + qs
        } else {
            ps
        }
    }
}

/// A null packet brings no frame.
proof fn lemma_null_brings(f: FlowView, plan: PlanView, t: int, s: Reassembly)
    requires
        laid_out(plan),
        0 <= t < plan.tracks.len(),
        is_ready(s),
    ensures
        brings(f, f.put(null_packet()), plan, t, Seq::empty(), s, Seq::empty()),
        s.read(Seq::empty()).state == s,
{
    reveal(laid_out);
    assert(plan.tracks[t].pid < 0x1FFF);
    lemma_null_elsewhere(f.out, plan.tracks[t].pid);
    lemma_brings_nothing(f, f.put(null_packet()), plan, t, s);
}

/// Waiting for the clock brings no frame.
proof fn lemma_idled_brings(
    f: FlowView,
    plan: PlanView,
    t: int,
    target: int,
    fuel: nat,
    s: Reassembly,
) -> (ps: Seq<TsPacketView>)
    requires
        laid_out(plan),
        0 <= t < plan.tracks.len(),
        is_ready(s),
    ensures
        brings(f, f.idled(plan, target, fuel), plan, t, Seq::empty(), s, ps),
    decreases fuel,
{
    if fuel == 0 || f.now() >= target {
        lemma_brings_nothing(f, f, plan, t, s);
        Seq::empty()
    } else {
        let none = Seq::<PacketView>::empty();
        let n = plan.programs.len() as int;
        let a = f.clocks_put(plan, n);
        let b = a.put(null_packet());
        let g = b.idled(plan, target, (fuel - 1) as nat);
        let ps = lemma_clocks_bring(f, plan, t, n, s);
        lemma_brings_ready(f, a, plan, t, none, s, ps);
        let s1 = s.read(ps).state;
        lemma_null_brings(a, plan, t, s1);
        lemma_brings_more(f, a, b, plan, t, none, none, s, ps, Seq::empty());
        assert(none + none =~= none);
        assert(ps + Seq::<TsPacketView>::empty() =~= ps);
        let qs = lemma_idled_brings(b, plan, t, target, (fuel - 1) as nat, s1);
        lemma_brings_more(f, b, g, plan, t, none, none, s, ps, qs);
        ps + qs
    }
}

/// What frame `pkt` of stream `j` brings on stream `t`.
pub open spec fn only_of(j: int, pkt: PacketView, t: int) -> Seq<PacketView> {
    if j == t { seq![pkt] } else { Seq::empty() }
}

/// A frame of another stream that is sent brings nothing on the PID.
proof fn lemma_sent_elsewhere(
    f: FlowView,
    plan: PlanView,
    j: int,
    pkt: PacketView,
    paced: bool,
    t: int,
    s: Reassembly,
) -> (ps: Seq<TsPacketView>)
    requires
        laid_out(plan),
        sound(f, plan),
        0 <= j < plan.tracks.len(),
        0 <= t < plan.tracks.len(),
        j != t,
        f.sent(plan, j, pkt, paced).error is None,
        is_ready(s),
    ensures
        brings(f, f.sent(plan, j, pkt, paced).flow, plan, t, Seq::empty(), s, ps),
{
    reveal(FlowView::sent);
    reveal(laid_out);
    let track = plan.tracks[j];
    let pid = plan.tracks[t].pid;
    let p = track.program as int;
    let own = track.pid == plan.programs[p].pcr_pid;
    assert(f.tracks.len() == plan.tracks.len() && f.tracks[j].wf()) by {
        reveal(sound);
        reveal(orderly);
    }
    assert(plan.programs[p].pcr_pid < 0x2000);
    let qs = lemma_pcrs_before_quiet(f, plan, j, pkt.pts, paced, pid);
    lemma_clocks_own(f, plan, p, t, qs);
    let b = f.pcrs_before(plan, j, pkt.pts, paced);
    let inline = own && pkt.pts is Some;
    if inline {
        lemma_ring_bound(guarded(pkt.pts->0));
    }
    let c = if inline { b.with_last_pcr(p, guarded(pkt.pts->0)) } else { b };
    let riders = Riders {
        pcr: if inline { Some((ring(guarded(pkt.pts->0)), 0u16)) } else { None },
        random_access: pkt.keyframe && (!own || inline),
        splice: c.tracks[j].splice,
    };
    let d = c.splice_taken(j);
    let packets = frame_packets(track.stream_id, pkt.pts, pkt.dts, pkt.data);
    let units = units_of(plan, j, pkt);
    lemma_frame_parses(track.stream_id, pkt.pts, pkt.dts, pkt.data, riders.random_access);
    let n = packets.len() as int;
    let g = d.frame_put(plan, j, riders, packets, n);
    let theirs = lemma_frame_put_read_back(
        d,
        plan,
        j,
        riders,
        packets,
        units,
        n,
        Reassembly::empty(),
    );
    assert(packets_on(g.out, pid) == packets_on(d.out, pid)) by {
        reveal(gains);
        assert(plan.tracks[t].pid != plan.tracks[j].pid);
    }
    lemma_sent_steady(f, plan, j, pkt, paced);
    assert(g.tracks[t] == f.tracks[t]) by {
        reveal(steady);
    }
    lemma_brings_quiet(f, g, plan, t, s, qs);
    qs
}

/// A frame that is sent brings itself on its stream, and nothing on any other.
pub proof fn lemma_sent_brings(
    f: FlowView,
    plan: PlanView,
    j: int,
    pkt: PacketView,
    paced: bool,
    t: int,
    s: Reassembly,
) -> (ps: Seq<TsPacketView>)
    requires
        laid_out(plan),
        sound(f, plan),
        0 <= j < plan.tracks.len(),
        0 <= t < plan.tracks.len(),
        f.sent(plan, j, pkt, paced).error is None,
        is_ready(s),
    ensures
        brings(f, f.sent(plan, j, pkt, paced).flow, plan, t, only_of(j, pkt, t), s, ps),
{
    reveal(laid_out);
    if j != t {
        lemma_sent_elsewhere(f, plan, j, pkt, paced, t, s)
    } else {
        assert(frame_error(plan.tracks[t].stream_id, pkt.pts, pkt.dts, pkt.data.len() as int)
            is None) by {
            reveal(FlowView::sent);
        }
        let p = plan.tracks[t].program as int;
        let g = f.sent(plan, t, pkt, paced).flow;
        assert(f.tracks.len() == plan.tracks.len() && f.tracks[t].wf()) by {
            reveal(sound);
            reveal(orderly);
        }
        assert(plan.programs[p].pcr_pid < 0x2000);
        assert(owns_pid(plan, t)) by {
            if plan.programs[p].pcr_pid == plan.tracks[t].pid && plan.programs[p].pcr_track is Some {
                let x = plan.programs[p].pcr_track->0 as int;
                assert(plan.tracks[x].pid == plan.tracks[t].pid);
            }
        }
        let ps = lemma_sent_read_back(f, plan, t, pkt, paced, s);
        assert(brings(f, g, plan, t, seq![pkt], s, ps)) by {
            reveal(brings);
            assert(seq![pkt].drop_last() =~= Seq::empty());
            reveal_with_fuel(units_of_all, 2);
            assert(units_of_all(plan, t, seq![pkt]) =~= units_of(plan, t, pkt));
        }
        ps
    }
}

/// Pacing stays on or off, and a clock that runs keeps running.
pub open spec fn runs_on(f: FlowView, g: FlowView) -> bool {
    &&& g.pacer is Some == f.pacer is Some
    &&& g.pacer is Some ==> g.pacer->0.held.len() == f.pacer->0.held.len()
    &&& f.anchored() ==> g.anchored()
}

proof fn lemma_laid_out_wf(plan: PlanView)
    requires
        laid_out(plan),
    ensures
        plan.wf(),
{
    reveal(laid_out);
}

/// The clock references that are due and a null packet bring no frame.
proof fn lemma_tick_brings(f: FlowView, plan: PlanView, t: int, s: Reassembly) -> (ps: Seq<
    TsPacketView,
>)
    requires
        laid_out(plan),
        sound(f, plan),
        0 <= t < plan.tracks.len(),
        is_ready(s),
    ensures
        ({
            let g = f.clocks_put(plan, plan.programs.len() as int).put(null_packet());
            &&& brings(f, g, plan, t, Seq::empty(), s, ps)
            &&& sound(g, plan)
            &&& runs_on(f, g)
            &&& held_on(g, t) == held_on(f, t)
        }),
{
    let none = Seq::<PacketView>::empty();
    let n = plan.programs.len() as int;
    let a = f.clocks_put(plan, n);
    let b = a.put(null_packet());
    lemma_laid_out_wf(plan);
    lemma_clocks_sound(f, plan, n);
    lemma_null_put(a, plan);
    let ps = lemma_clocks_bring(f, plan, t, n, s);
    lemma_brings_ready(f, a, plan, t, none, s, ps);
    lemma_null_brings(a, plan, t, s.read(ps).state);
    lemma_brings_more(f, a, b, plan, t, none, none, s, ps, Seq::empty());
    assert(none + none =~= none);
    assert(ps + Seq::<TsPacketView>::empty() =~= ps);
    lemma_clocks_steady(f, plan, n);
    assert(runs_on(f, b) && held_on(b, t) == held_on(f, t)) by {
        reveal(steady);
    }
    ps
}

/// The clock references that are due and a frame bring the frame.
proof fn lemma_timed_brings(
    f: FlowView,
    plan: PlanView,
    j: int,
    pkt: PacketView,
    t: int,
    s: Reassembly,
) -> (ps: Seq<TsPacketView>)
    requires
        laid_out(plan),
        sound(f, plan),
        0 <= j < plan.tracks.len(),
        0 <= t < plan.tracks.len(),
        f.clocks_put(plan, plan.programs.len() as int).sent(plan, j, pkt, true).error is None,
        is_ready(s),
    ensures
        ({
            let g = f.clocks_put(plan, plan.programs.len() as int).sent(plan, j, pkt, true).flow;
            &&& brings(f, g, plan, t, only_of(j, pkt, t), s, ps)
            &&& runs_on(f, g)
            &&& held_on(g, t) == held_on(f, t)
        }),
{
    let none = Seq::<PacketView>::empty();
    let mine = only_of(j, pkt, t);
    let n = plan.programs.len() as int;
    let a = f.clocks_put(plan, n);
    let g = a.sent(plan, j, pkt, true).flow;
    lemma_laid_out_wf(plan);
    lemma_clocks_sound(f, plan, n);
    let x = lemma_clocks_bring(f, plan, t, n, s);
    lemma_brings_ready(f, a, plan, t, none, s, x);
    let y = lemma_sent_brings(a, plan, j, pkt, true, t, s.read(x).state);
    lemma_brings_more(f, a, g, plan, t, none, mine, s, x, y);
    assert(none + mine =~= mine);
    lemma_clocks_steady(f, plan, n);
    assert(a.tracks.len() == plan.tracks.len()) by {
        reveal(sound);
        reveal(orderly);
    }
    lemma_sent_steady(a, plan, j, pkt, true);
    assert(runs_on(f, g) && held_on(g, t) == held_on(f, t)) by {
        reveal(steady);
    }
    x + y
}

/// A frame that is sent right away leaves what is held alone.
proof fn lemma_sent_keeps(f: FlowView, plan: PlanView, j: int, pkt: PacketView, t: int)
    requires
        sound(f, plan),
        0 <= j < plan.tracks.len(),
    ensures
        runs_on(f, f.sent(plan, j, pkt, f.anchored()).flow),
        held_on(f.sent(plan, j, pkt, f.anchored()).flow, t) == held_on(f, t),
{
    assert(f.tracks.len() == plan.tracks.len()) by {
        reveal(sound);
        reveal(orderly);
    }
    lemma_sent_steady(f, plan, j, pkt, f.anchored());
    reveal(steady);
}

/// A held frame that is delivered brings itself on its stream, and nothing on
/// any other; no other held frame goes out.
pub(crate) proof fn lemma_held_brings(
    f: FlowView,
    plan: PlanView,
    j: int,
    pkt: PacketView,
    t: int,
    s: Reassembly,
) -> (ps: Seq<TsPacketView>)
    requires
        laid_out(plan),
        sound(f, plan),
        0 <= j < plan.tracks.len(),
        0 <= t < plan.tracks.len(),
        f.delivered_held(plan, j, pkt).error is None,
        is_ready(s),
    ensures
        brings(f, f.delivered_held(plan, j, pkt).flow, plan, t, only_of(j, pkt, t), s, ps),
        runs_on(f, f.delivered_held(plan, j, pkt).flow),
        held_on(f.delivered_held(plan, j, pkt).flow, t) == held_on(f, t),
{
    let none = Seq::<PacketView>::empty();
    let mine = only_of(j, pkt, t);
    assert(none + none =~= none);
    assert(none + mine =~= mine);
    lemma_laid_out_wf(plan);
    match decode_time(pkt) {
        Some(d) if f.pacer is Some => {
            let target = ticks_27(d) - lead_of(plan.tracks[j].is_video);
            let a = f.clock_started(target);
            let fuel = a.waits(target);
            let b = a.idled(plan, target, fuel);
            let g = b.clocks_put(plan, plan.programs.len() as int).sent(plan, j, pkt, true).flow;
            lemma_clock_started_sound(f, plan, target);
            lemma_idled_sound(a, plan, target, fuel);
            lemma_brings_nothing(f, a, plan, t, s);
            let x = lemma_idled_brings(a, plan, t, target, fuel, s);
            lemma_brings_more(f, a, b, plan, t, none, none, s, Seq::empty(), x);
            assert(Seq::<TsPacketView>::empty() + x =~= x);
            lemma_brings_ready(f, b, plan, t, none, s, x);
            lemma_idled_steady(a, plan, target, fuel);
            assert(runs_on(a, b) && held_on(b, t) == held_on(a, t)) by {
                reveal(steady);
            }
            let y = lemma_timed_brings(b, plan, j, pkt, t, s.read(x).state);
            lemma_brings_more(f, b, g, plan, t, none, mine, s, x, y);
            x + y
        },
        _ => {
            lemma_sent_keeps(f, plan, j, pkt, t);
            lemma_sent_brings(f, plan, j, pkt, f.anchored(), t, s)
        },
    }
}

/// From `f` to `g`, the frames `x` of stream `t` that were held come out, the
/// first ones in their order; the packets `p` bring them.
#[verifier::opaque]
pub open spec fn lets_out(
    f: FlowView,
    g: FlowView,
    plan: PlanView,
    t: int,
    x: Seq<PacketView>,
    s: Reassembly,
    p: Seq<TsPacketView>,
) -> bool {
    &&& brings(f, g, plan, t, x, s, p)
    &&& sound(g, plan)
    &&& runs_on(f, g)
    &&& held_on(f, t) == x + held_on(g, t)
}

/// One step after the other lets out what both let out.
pub(crate) proof fn lemma_lets_out_more(
    f: FlowView,
    g: FlowView,
    h: FlowView,
    plan: PlanView,
    t: int,
    x: Seq<PacketView>,
    y: Seq<PacketView>,
    s: Reassembly,
    a: Seq<TsPacketView>,
    b: Seq<TsPacketView>,
)
    requires
        lets_out(f, g, plan, t, x, s, a),
        lets_out(g, h, plan, t, y, s.read(a).state, b),
    ensures
        lets_out(f, h, plan, t, x + y, s, a + b),
{
    reveal(lets_out);
    lemma_brings_more(f, g, h, plan, t, x, y, s, a, b);
    lemma_regrouped(x, y, held_on(h, t));
}

pub(crate) proof fn lemma_lets_out_ready(
    f: FlowView,
    g: FlowView,
    plan: PlanView,
    t: int,
    x: Seq<PacketView>,
    s: Reassembly,
    p: Seq<TsPacketView>,
)
    requires
        lets_out(f, g, plan, t, x, s, p),
    ensures
        is_ready(s.read(p).state),
        sound(g, plan),
{
    reveal(lets_out);
    lemma_brings_ready(f, g, plan, t, x, s, p);
}

/// Nothing done lets nothing out.
pub(crate) proof fn lemma_lets_out_nothing(f: FlowView, plan: PlanView, t: int, s: Reassembly)
    requires
        sound(f, plan),
        is_ready(s),
    ensures
        lets_out(f, f, plan, t, Seq::empty(), s, Seq::empty()),
{
    reveal(lets_out);
    lemma_brings_nothing(f, f, plan, t, s);
    assert(held_on(f, t) =~= Seq::<PacketView>::empty() + held_on(f, t));
}

/// The clock references that are due and a null packet let nothing out.
proof fn lemma_tick_lets_out(f: FlowView, plan: PlanView, t: int, s: Reassembly) -> (p: Seq<
    TsPacketView,
>)
    requires
        laid_out(plan),
        sound(f, plan),
        0 <= t < plan.tracks.len(),
        is_ready(s),
    ensures
        lets_out(
            f,
            f.clocks_put(plan, plan.programs.len() as int).put(null_packet()),
            plan,
            t,
            Seq::empty(),
            s,
            p,
        ),
{
    reveal(lets_out);
    let p = lemma_tick_brings(f, plan, t, s);
    assert(held_on(f, t) =~= Seq::<PacketView>::empty() + held_on(f, t));
    p
}

/// The first held frame of a stream that is delivered lets itself out.
pub(crate) proof fn lemma_popped_lets_out(f: FlowView, plan: PlanView, j: int, t: int, s: Reassembly) -> (r: (
    Seq<PacketView>,
    Seq<TsPacketView>,
))
    requires
        laid_out(plan),
        sound(f, plan),
        f.pacer is Some,
        0 <= j < plan.tracks.len(),
        f.pacer->0.held[j].len() > 0,
        0 <= t < plan.tracks.len(),
        f.popped(j).delivered_held(plan, j, f.pacer->0.held[j][0]).error is None,
        is_ready(s),
    ensures
        lets_out(
            f,
            f.popped(j).delivered_held(plan, j, f.pacer->0.held[j][0]).flow,
            plan,
            t,
            r.0,
            s,
            r.1,
        ),
{
    let pkt = f.pacer->0.held[j][0];
    let a = f.popped(j);
    let b = a.delivered_held(plan, j, pkt).flow;
    let mine = only_of(j, pkt, t);
    assert(sound(a, plan) && f.pacer->0.held.len() == plan.tracks.len()) by {
        reveal(sound);
        reveal(orderly);
    }
    lemma_brings_nothing(f, a, plan, t, s);
    let x = lemma_held_brings(a, plan, j, pkt, t, s);
    lemma_brings_more(f, a, b, plan, t, Seq::empty(), mine, s, Seq::empty(), x);
    assert(Seq::<TsPacketView>::empty() + x =~= x);
    assert(Seq::<PacketView>::empty() + mine =~= mine);
    lemma_laid_out_wf(plan);
    lemma_held_sound(a, plan, j, pkt);
    assert(held_on(f, t) =~= mine + held_on(a, t));
    reveal(lets_out);
    (mine, x)
}

/// Held frames that go out are the first of their stream, in their order.
pub proof fn lemma_flushed_lets_out(
    f: FlowView,
    plan: PlanView,
    horizon: int,
    fuel: nat,
    t: int,
    s: Reassembly,
) -> (r: (Seq<PacketView>, Seq<TsPacketView>))
    requires
        laid_out(plan),
        sound(f, plan),
        0 <= t < plan.tracks.len(),
        f.flushed(plan, horizon, fuel).error is None,
        is_ready(s),
    ensures
        lets_out(f, f.flushed(plan, horizon, fuel).flow, plan, t, r.0, s, r.1),
    decreases fuel,
{
    let held = f.pacer->0.held;
    match first_due(held, held.len() as int) {
        Some(j) if f.pacer is Some && fuel > 0 && held_due(held[j][0]) <= horizon => {
            lemma_first_due(held, held.len() as int);
            assert(held.len() == plan.tracks.len()) by {
                reveal(sound);
                reveal(orderly);
            }
            let b = f.popped(j).delivered_held(plan, j, held[j][0]).flow;
            let (x, p) = lemma_popped_lets_out(f, plan, j, t, s);
            lemma_lets_out_ready(f, b, plan, t, x, s, p);
            let rest = (fuel - 1) as nat;
            let (y, q) = lemma_flushed_lets_out(b, plan, horizon, rest, t, s.read(p).state);
            let g = b.flushed(plan, horizon, rest).flow;
            lemma_lets_out_more(f, b, g, plan, t, x, y, s, p, q);
            (x + y, p + q)
        },
        _ => {
            lemma_lets_out_nothing(f, plan, t, s);
            (Seq::empty(), Seq::empty())
        },
    }
}

/// Held frames, the clock references that are due, and a null packet.
pub open spec fn step_waited(f: FlowView, plan: PlanView) -> FlowView {
    f.flushed_all(plan, f.now()).flow.clocks_put(plan, plan.programs.len() as int).put(
        null_packet(),
    )
}

proof fn lemma_step_lets_out(f: FlowView, plan: PlanView, t: int, s: Reassembly) -> (r: (
    Seq<PacketView>,
    Seq<TsPacketView>,
))
    requires
        laid_out(plan),
        sound(f, plan),
        0 <= t < plan.tracks.len(),
        f.flushed_all(plan, f.now()).error is None,
        is_ready(s),
    ensures
        lets_out(f, step_waited(f, plan), plan, t, r.0, s, r.1),
{
    let b = f.flushed_all(plan, f.now()).flow;
    let d = step_waited(f, plan);
    let count = held_count(f.pacer->0.held);
    let (x, p) = lemma_flushed_lets_out(f, plan, f.now(), count, t, s);
    lemma_lets_out_ready(f, b, plan, t, x, s, p);
    let q = lemma_tick_lets_out(b, plan, t, s.read(p).state);
    lemma_lets_out_more(f, b, d, plan, t, x, Seq::empty(), s, p, q);
    (x + Seq::<PacketView>::empty(), p + q)
}

/// Waiting for the clock lets out held frames, the first of their stream, in
/// their order.
pub proof fn lemma_waited_lets_out(
    f: FlowView,
    plan: PlanView,
    target: int,
    fuel: nat,
    t: int,
    s: Reassembly,
) -> (r: (Seq<PacketView>, Seq<TsPacketView>))
    requires
        laid_out(plan),
        sound(f, plan),
        0 <= t < plan.tracks.len(),
        f.waited(plan, target, fuel).error is None,
        is_ready(s),
    ensures
        lets_out(f, f.waited(plan, target, fuel).flow, plan, t, r.0, s, r.1),
    decreases fuel,
{
    if fuel == 0 || f.now() >= target {
        lemma_lets_out_nothing(f, plan, t, s);
        (Seq::empty(), Seq::empty())
    } else if f.flushed_all(plan, f.now()).flow.now() >= target {
        let count = held_count(f.pacer->0.held);
        lemma_flushed_lets_out(f, plan, f.now(), count, t, s)
    } else {
        let d = step_waited(f, plan);
        let rest = (fuel - 1) as nat;
        let (x, p) = lemma_step_lets_out(f, plan, t, s);
        lemma_lets_out_ready(f, d, plan, t, x, s, p);
        let (y, q) = lemma_waited_lets_out(d, plan, target, rest, t, s.read(p).state);
        let g = d.waited(plan, target, rest).flow;
        lemma_lets_out_more(f, d, g, plan, t, x, y, s, p, q);
        (x + y, p + q)
    }
}

/// What a frame of `n` bytes waits for.
pub open spec fn awaited(f: FlowView, plan: PlanView, target: int, fuel: nat, n: int) -> FlowView {
    let b = f.waited(plan, target, fuel).flow;
    b.flushed_all(plan, b.now() + b.wire_time(n)).flow
}

/// What a frame waits for lets out held frames, the first of their stream, in
/// their order.
proof fn lemma_awaited_lets_out(
    f: FlowView,
    plan: PlanView,
    target: int,
    fuel: nat,
    n: int,
    t: int,
    s: Reassembly,
) -> (r: (Seq<PacketView>, Seq<TsPacketView>))
    requires
        laid_out(plan),
        sound(f, plan),
        0 <= t < plan.tracks.len(),
        f.waited(plan, target, fuel).error is None,
        ({
            let b = f.waited(plan, target, fuel).flow;
            b.flushed_all(plan, b.now() + b.wire_time(n)).error is None
        }),
        is_ready(s),
    ensures
        lets_out(f, awaited(f, plan, target, fuel, n), plan, t, r.0, s, r.1),
{
    let b = f.waited(plan, target, fuel).flow;
    let horizon = b.now() + b.wire_time(n);
    let count = held_count(b.pacer->0.held);
    let (x, p) = lemma_waited_lets_out(f, plan, target, fuel, t, s);
    lemma_lets_out_ready(f, b, plan, t, x, s, p);
    let (y, q) = lemma_flushed_lets_out(b, plan, horizon, count, t, s.read(p).state);
    lemma_lets_out_more(f, b, awaited(f, plan, target, fuel, n), plan, t, x, y, s, p, q);
    (x + y, p + q)
}

/// A frame that is delivered brings itself, after held frames: the first of
/// their stream, in their order.
pub proof fn lemma_delivered_brings(
    f: FlowView,
    plan: PlanView,
    j: int,
    pkt: PacketView,
    t: int,
    s: Reassembly,
) -> (r: (Seq<PacketView>, Seq<TsPacketView>))
    requires
        laid_out(plan),
        sound(f, plan),
        0 <= j < plan.tracks.len(),
        0 <= t < plan.tracks.len(),
        f.delivered(plan, j, pkt).error is None,
        is_ready(s),
    ensures
        brings(f, f.delivered(plan, j, pkt).flow, plan, t, r.0 + only_of(j, pkt, t), s, r.1),
        runs_on(f, f.delivered(plan, j, pkt).flow),
        held_on(f, t) == r.0 + held_on(f.delivered(plan, j, pkt).flow, t),
{
    let none = Seq::<PacketView>::empty();
    let mine = only_of(j, pkt, t);
    match decode_time(pkt) {
        Some(d) if f.pacer is Some => {
            let target = ticks_27(d) - lead_of(plan.tracks[j].is_video);
            let a = f.clock_started(target);
            let fuel = a.waits(target);
            let n = pkt.data.len() as int;
            let c = awaited(a, plan, target, fuel, n);
            lemma_clock_started_sound(f, plan, target);
            lemma_brings_nothing(f, a, plan, t, s);
            let (x, p) = lemma_awaited_lets_out(a, plan, target, fuel, n, t, s);
            lemma_lets_out_ready(a, c, plan, t, x, s, p);
            let z = lemma_timed_brings(c, plan, j, pkt, t, s.read(p).state);
            let g = c.clocks_put(plan, plan.programs.len() as int).sent(plan, j, pkt, true).flow;
            lemma_started_brings(f, a, c, g, plan, t, x, mine, s, p, z);
            (x, p + z)
        },
        _ => {
            lemma_sent_keeps(f, plan, j, pkt, t);
            assert(none + mine =~= mine);
            assert(held_on(f, t) =~= none + held_on(f, t));
            (none, lemma_sent_brings(f, plan, j, pkt, f.anchored(), t, s))
        },
    }
}

/// The clock starts, held frames come out, and then a frame.
proof fn lemma_started_brings(
    f: FlowView,
    a: FlowView,
    c: FlowView,
    g: FlowView,
    plan: PlanView,
    t: int,
    x: Seq<PacketView>,
    mine: Seq<PacketView>,
    s: Reassembly,
    p: Seq<TsPacketView>,
    z: Seq<TsPacketView>,
)
    requires
        brings(f, a, plan, t, Seq::empty(), s, Seq::empty()),
        s.read(Seq::empty()).state == s,
        runs_on(f, a),
        held_on(a, t) == held_on(f, t),
        lets_out(a, c, plan, t, x, s, p),
        brings(c, g, plan, t, mine, s.read(p).state, z),
        runs_on(c, g),
        held_on(g, t) == held_on(c, t),
    ensures
        brings(f, g, plan, t, x + mine, s, p + z),
        runs_on(f, g),
        held_on(f, t) == x + held_on(g, t),
{
    reveal(lets_out);
    lemma_brings_more(f, a, c, plan, t, Seq::empty(), x, s, Seq::empty(), p);
    assert(Seq::<PacketView>::empty() + x =~= x);
    assert(Seq::<TsPacketView>::empty() + p =~= p);
    lemma_brings_more(f, c, g, plan, t, x, mine, s, p, z);
}

} // verus!
