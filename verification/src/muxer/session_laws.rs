//! What a reader of one stream gets of a whole session: every frame once, in the
//! order in which they were written.
use vstd::prelude::*;

use crate::muxer::deliver::{first_due, held_count, lemma_first_due, lemma_held_update};
use crate::muxer::flow::{FlowView, PacketView, PlanView};
use crate::muxer::frame_read_back::{hands_out, is_ready};
use crate::muxer::laws::{lemma_tables_elsewhere, table_pids_fit, tables_count};
use crate::muxer::mux::{track_for_index, MuxOutcome, MuxView};
use crate::muxer::plan_laws::laid_out;
use crate::muxer::read_back::packets_on;
use crate::muxer::session_read_back::{
    brings, held_on, lemma_brings_more, lemma_brings_nothing, lemma_brings_ready,
    lemma_delivered_brings, lemma_flushed_lets_out, lemma_held_brings, lemma_lets_out_more,
    lemma_lets_out_nothing, lemma_lets_out_ready, lemma_popped_lets_out, lets_out, only_of, runs_on,
    units_of_all,
};
use crate::muxer::steady::{lemma_sent_steady, lemma_tables_steady, steady};
use crate::muxer::well_formed::{
    is_sound, lemma_packet_written_sound, lemma_tables_sound, lemma_track_in_range, orderly, sound,
};
use crate::packet::parse::TsPacketView;
use crate::pes::reassemble::Reassembly;

verus! {

/// Frames are held on streams other than video only, and only while the clock
/// runs.
pub open spec fn queues_fit(f: FlowView, plan: PlanView) -> bool {
    f.pacer is Some ==> forall|t: int|
        0 <= t < plan.tracks.len() && (plan.tracks[t].is_video || !f.anchored()) ==> (
        #[trigger] f.pacer->0.held[t]).len() == 0
}

/// The frames of stream `t` in frame `pkt`: itself, or none.
pub open spec fn written_on(plan: PlanView, pkt: PacketView, t: int) -> Seq<PacketView> {
    match track_for_index(plan, pkt.stream_index, 0) {
        Some(j) => only_of(j, pkt, t),
        None => Seq::empty(),
    }
}

/// Frame `pkt` does not overtake a held one: it has a PTS, or no frame of its
/// stream is held.
pub open spec fn is_timely(m: MuxView, pkt: PacketView) -> bool {
    pkt.pts is Some || (track_for_index(m.plan, pkt.stream_index, 0) matches Some(j) ==> held_on(
        m.flow,
        j,
    ).len() == 0)
}

/// Repeating the tables brings no frame.
pub(crate) proof fn lemma_tables_bring(f: FlowView, plan: PlanView, t: int, s: Reassembly)
    requires
        laid_out(plan),
        sound(f, plan),
        0 <= t < plan.tracks.len(),
        is_ready(s),
    ensures
        ({
            let g = f.tables_put(plan, plan.tables.len() as int);
            &&& brings(f, g, plan, t, Seq::empty(), s, Seq::empty())
            &&& sound(g, plan)
            &&& runs_on(f, g)
            &&& g.anchored() == f.anchored()
            &&& g.pacer is Some ==> g.pacer->0.held == f.pacer->0.held
        }),
{
    let n = plan.tables.len() as int;
    let g = f.tables_put(plan, n);
    assert(table_pids_fit(plan) && plan.wf() && plan.tracks[t].pid < 0x1FFF && forall|i: int|
        0 <= i < n ==> (#[trigger] plan.tables[i]).pid != plan.tracks[t].pid) by {
        reveal(laid_out);
    }
    assert(tables_count(f, plan)) by {
        reveal(sound);
        reveal(orderly);
    }
    lemma_tables_elsewhere(f, plan, n, plan.tracks[t].pid);
    lemma_tables_sound(f, plan, n);
    lemma_tables_steady(f, plan, n);
    assert(runs_on(f, g) && g.anchored() == f.anchored() && (g.pacer is Some ==> g.pacer->0.held
        == f.pacer->0.held)) by {
        reveal(steady);
    }
    lemma_brings_nothing(f, g, plan, t, s);
}

/// Frames that go out leave the queues as they have to be.
proof fn lemma_queues_shrink(f: FlowView, g: FlowView, plan: PlanView)
    requires
        queues_fit(f, plan),
        runs_on(f, g),
        forall|i: int|
            0 <= i < plan.tracks.len() ==> #[trigger] held_on(g, i).len() <= held_on(f, i).len(),
    ensures
        queues_fit(g, plan),
{
    if g.pacer is Some {
        assert forall|t: int|
            0 <= t < plan.tracks.len() && (plan.tracks[t].is_video || !g.anchored()) implies (
        #[trigger] g.pacer->0.held[t]).len() == 0 by {
            assert(held_on(g, t).len() <= held_on(f, t).len());
            assert(f.pacer->0.held[t].len() == 0);
        }
    }
}

/// A frame that goes through the queue of its stream: it comes out after those
/// before it.
proof fn lemma_queued_brings(
    f: FlowView,
    plan: PlanView,
    j: int,
    pkt: PacketView,
    t: int,
    s: Reassembly,
) -> (r: (Seq<PacketView>, Seq<TsPacketView>))
    requires
        laid_out(plan),
        sound(f, plan),
        queues_fit(f, plan),
        f.anchored(),
        0 <= j < plan.tracks.len(),
        !plan.tracks[j].is_video,
        0 <= t < plan.tracks.len(),
        f.holding(j, pkt).flushed_all(plan, f.holding(j, pkt).now()).error is None,
        is_ready(s),
    ensures
        ({
            let g = f.holding(j, pkt).flushed_all(plan, f.holding(j, pkt).now()).flow;
            &&& brings(f, g, plan, t, r.0, s, r.1)
            &&& held_on(f, t) + only_of(j, pkt, t) == r.0 + held_on(g, t)
            &&& queues_fit(g, plan)
            &&& runs_on(f, g)
        }),
{
    let a = f.holding(j, pkt);
    let fuel = held_count(a.pacer->0.held);
    let g = a.flushed_all(plan, a.now()).flow;
    assert(sound(a, plan) && f.pacer->0.held.len() == plan.tracks.len()) by {
        reveal(sound);
        reveal(orderly);
    }
    assert(queues_fit(a, plan)) by {
        assert forall|i: int|
            0 <= i < plan.tracks.len() && (plan.tracks[i].is_video || !a.anchored()) implies (
        #[trigger] a.pacer->0.held[i]).len() == 0 by {
            assert(f.pacer->0.held[i].len() == 0);
        }
    }
    lemma_brings_nothing(f, a, plan, t, s);
    let (x, ps) = lemma_flushed_lets_out(a, plan, a.now(), fuel, t, s);
    assert(brings(a, g, plan, t, x, s, ps) && runs_on(a, g) && held_on(a, t) == x + held_on(g, t))
        by {
        reveal(lets_out);
    }
    lemma_brings_more(f, a, g, plan, t, Seq::empty(), x, s, Seq::empty(), ps);
    assert(Seq::<PacketView>::empty() + x =~= x);
    assert(Seq::<TsPacketView>::empty() + ps =~= ps);
    assert(held_on(a, t) =~= held_on(f, t) + only_of(j, pkt, t));
    assert forall|i: int| 0 <= i < plan.tracks.len() implies #[trigger] held_on(g, i).len()
        <= held_on(a, i).len() by {
        let (y, _) = lemma_flushed_lets_out(a, plan, a.now(), fuel, i, Reassembly::empty());
        reveal(lets_out);
        assert(held_on(a, i).len() == y.len() + held_on(g, i).len());
    }
    lemma_queues_shrink(a, g, plan);
    (x, ps)
}

/// A frame that is delivered: it comes out after those held before it.
proof fn lemma_direct_brings(
    f: FlowView,
    plan: PlanView,
    j: int,
    pkt: PacketView,
    t: int,
    s: Reassembly,
) -> (r: (Seq<PacketView>, Seq<TsPacketView>))
    requires
        laid_out(plan),
        sound(f, plan),
        queues_fit(f, plan),
        0 <= j < plan.tracks.len(),
        held_on(f, j).len() == 0,
        0 <= t < plan.tracks.len(),
        f.delivered(plan, j, pkt).error is None,
        is_ready(s),
    ensures
        ({
            let g = f.delivered(plan, j, pkt).flow;
            &&& brings(f, g, plan, t, r.0, s, r.1)
            &&& held_on(f, t) + only_of(j, pkt, t) == r.0 + held_on(g, t)
            &&& queues_fit(g, plan)
            &&& runs_on(f, g)
        }),
{
    let g = f.delivered(plan, j, pkt).flow;
    let (x, ps) = lemma_delivered_brings(f, plan, j, pkt, t, s);
    let mine = only_of(j, pkt, t);
    if j == t {
        assert(x.len() == 0 && held_on(g, t).len() == 0) by {
            assert(held_on(f, t).len() == x.len() + held_on(g, t).len());
        }
    }
    assert(held_on(f, t) + mine =~= x + mine + held_on(g, t));
    assert forall|i: int| 0 <= i < plan.tracks.len() implies #[trigger] held_on(g, i).len()
        <= held_on(f, i).len() by {
        let (y, _) = lemma_delivered_brings(f, plan, j, pkt, i, Reassembly::empty());
        assert(held_on(f, i).len() == y.len() + held_on(g, i).len());
    }
    lemma_queues_shrink(f, g, plan);
    (x + mine, ps)
}

/// A frame that is accepted comes out on its stream after every frame before it,
/// at once or later: what was held, and then the frame, is what comes out, and
/// then what is held. Whatever else goes along, a reassembler fed with what comes
/// on the PID of a stream hands out just the frames that come out there, and the
/// counters count on.
pub proof fn lemma_written_in_order(m: MuxView, pkt: PacketView, t: int, s: Reassembly) -> (r: (
    Seq<PacketView>,
    Seq<TsPacketView>,
))
    requires
        is_sound(m),
        laid_out(m.plan),
        queues_fit(m.flow, m.plan),
        is_timely(m, pkt),
        m.packet_written(pkt).error is None,
        0 <= t < m.plan.tracks.len(),
        is_ready(s),
    ensures
        brings(m.flow, m.packet_written(pkt).mux.flow, m.plan, t, r.0, s, r.1),
        held_on(m.flow, t) + written_on(m.plan, pkt, t) == r.0 + held_on(
            m.packet_written(pkt).mux.flow,
            t,
        ),
        queues_fit(m.packet_written(pkt).mux.flow, m.plan),
        is_sound(m.packet_written(pkt).mux),
        m.packet_written(pkt).mux.plan == m.plan,
{
    let plan = m.plan;
    let j = track_for_index(plan, pkt.stream_index, 0)->0;
    lemma_track_in_range(plan, pkt.stream_index, 0);
    lemma_packet_written_sound(m, pkt);
    let a = match pkt.pts {
        Some(x) => m.tables_repeated(x),
        None => m,
    };
    let g = m.packet_written(pkt).mux.flow;
    lemma_tables_bring(m.flow, plan, t, s);
    lemma_brings_nothing(m.flow, m.flow, plan, t, s);
    assert(brings(m.flow, a.flow, plan, t, Seq::empty(), s, Seq::empty()));
    assert(sound(a.flow, plan) && a.flow.anchored() == m.flow.anchored() && a.flow.pacer is Some
        == m.flow.pacer is Some);
    assert(queues_fit(a.flow, plan));
    assert(forall|i: int| held_on(a.flow, i) == held_on(m.flow, i));
    let (x, ps) = if a.flow.anchored() && !plan.tracks[j].is_video && pkt.pts is Some {
        lemma_queued_brings(a.flow, plan, j, pkt, t, s)
    } else {
        lemma_direct_brings(a.flow, plan, j, pkt, t, s)
    };
    lemma_brings_more(m.flow, a.flow, g, plan, t, Seq::empty(), x, s, Seq::empty(), ps);
    assert(Seq::<PacketView>::empty() + x =~= x);
    assert(Seq::<TsPacketView>::empty() + ps =~= ps);
    (x, ps)
}

/// After the frames `pkts`, up to the first one that is refused.
pub open spec fn frames_written(m: MuxView, pkts: Seq<PacketView>) -> MuxOutcome
    decreases pkts.len(),
{
    if pkts.len() == 0 {
        MuxOutcome { mux: m, error: None }
    } else {
        let o = frames_written(m, pkts.drop_last());
        if o.error is Some {
            o
        } else {
            o.mux.packet_written(pkts.last())
        }
    }
}

/// None of the frames `pkts` overtakes a held one.
pub open spec fn all_timely(m: MuxView, pkts: Seq<PacketView>) -> bool
    decreases pkts.len(),
{
    pkts.len() == 0 || (all_timely(m, pkts.drop_last()) && is_timely(
        frames_written(m, pkts.drop_last()).mux,
        pkts.last(),
    ))
}

/// Those of the frames `pkts` that are on stream `t`.
pub open spec fn frames_on(plan: PlanView, pkts: Seq<PacketView>, t: int) -> Seq<PacketView>
    decreases pkts.len(),
{
    if pkts.len() == 0 {
        Seq::empty()
    } else {
        frames_on(plan, pkts.drop_last(), t) + written_on(plan, pkts.last(), t)
    }
}

pub(crate) proof fn lemma_queue_goes_on(
    f: Seq<PacketView>,
    a: Seq<PacketView>,
    g: Seq<PacketView>,
    first: Seq<PacketView>,
    mine: Seq<PacketView>,
    x: Seq<PacketView>,
    y: Seq<PacketView>,
)
    requires
        f + first == x + a,
        a + mine == y + g,
    ensures
        f + (first + mine) == (x + y) + g,
{
    assert(f + (first + mine) =~= (f + first) + mine);
    assert((x + a) + mine =~= x + (a + mine));
    assert(x + (y + g) =~= (x + y) + g);
}

/// Frames that are accepted come out on their stream in the order in which they
/// were written, the last ones being held.
#[verifier::rlimit(40)]
#[verifier::spinoff_prover]
pub proof fn lemma_session_in_order(m: MuxView, pkts: Seq<PacketView>, t: int, s: Reassembly) -> (r:
    (Seq<PacketView>, Seq<TsPacketView>))
    requires
        is_sound(m),
        laid_out(m.plan),
        queues_fit(m.flow, m.plan),
        all_timely(m, pkts),
        frames_written(m, pkts).error is None,
        0 <= t < m.plan.tracks.len(),
        is_ready(s),
    ensures
        ({
            let o = frames_written(m, pkts).mux;
            &&& brings(m.flow, o.flow, m.plan, t, r.0, s, r.1)
            &&& held_on(m.flow, t) + frames_on(m.plan, pkts, t) == r.0 + held_on(o.flow, t)
            &&& queues_fit(o.flow, m.plan)
            &&& is_sound(o)
            &&& o.plan == m.plan
        }),
    decreases pkts.len(),
{
    let none = Seq::<PacketView>::empty();
    if pkts.len() == 0 {
        lemma_brings_nothing(m.flow, m.flow, m.plan, t, s);
        assert(held_on(m.flow, t) + none =~= none + held_on(m.flow, t));
        (none, Seq::empty())
    } else {
        let a = frames_written(m, pkts.drop_last()).mux;
        let g = frames_written(m, pkts).mux;
        let (x, p) = lemma_session_in_order(m, pkts.drop_last(), t, s);
        lemma_brings_ready(m.flow, a.flow, m.plan, t, x, s, p);
        let (y, q) = lemma_written_in_order(a, pkts.last(), t, s.read(p).state);
        lemma_brings_more(m.flow, a.flow, g.flow, m.plan, t, x, y, s, p, q);
        lemma_queue_goes_on(
            held_on(m.flow, t),
            held_on(a.flow, t),
            held_on(g.flow, t),
            frames_on(m.plan, pkts.drop_last(), t),
            written_on(m.plan, pkts.last(), t),
            x,
            y,
        );
        (x + y, p + q)
    }
}

proof fn lemma_held_fewer(x: Seq<Seq<PacketView>>, y: Seq<Seq<PacketView>>)
    requires
        x.len() == y.len(),
        forall|i: int| 0 <= i < x.len() ==> (#[trigger] x[i]).len() <= y[i].len(),
    ensures
        held_count(x) <= held_count(y),
    decreases x.len(),
{
    if x.len() > 0 {
        lemma_held_fewer(x.drop_last(), y.drop_last());
        assert(x[x.len() - 1].len() <= y[x.len() - 1].len());
    }
}

proof fn lemma_none_held(x: Seq<Seq<PacketView>>, t: int)
    requires
        held_count(x) == 0,
        0 <= t < x.len(),
    ensures
        x[t].len() == 0,
    decreases x.len(),
{
    if t < x.len() - 1 {
        lemma_none_held(x.drop_last(), t);
    }
}

/// The state after the first held frame of stream `j` has gone out.
pub open spec fn release_step(f: FlowView, plan: PlanView, j: int) -> FlowView {
    f.popped(j).delivered_held(plan, j, f.pacer->0.held[j][0]).flow
}

/// Each frame that goes out leaves fewer held.
proof fn lemma_release_shrinks(f: FlowView, plan: PlanView, j: int)
    requires
        laid_out(plan),
        sound(f, plan),
        f.pacer is Some,
        0 <= j < plan.tracks.len(),
        f.pacer->0.held[j].len() > 0,
        f.popped(j).delivered_held(plan, j, f.pacer->0.held[j][0]).error is None,
    ensures
        release_step(f, plan, j).pacer is Some,
        held_count(release_step(f, plan, j).pacer->0.held) < held_count(f.pacer->0.held),
{
    let held = f.pacer->0.held;
    let a = f.popped(j);
    let b = release_step(f, plan, j);
    assert(sound(a, plan) && held.len() == plan.tracks.len()) by {
        reveal(sound);
        reveal(orderly);
    }
    let _ = lemma_held_brings(a, plan, j, held[j][0], j, Reassembly::empty());
    lemma_held_update(held, j, held[j].skip(1));
    assert forall|i: int| 0 <= i < held.len() implies (#[trigger] b.pacer->0.held[i]).len()
        <= a.pacer->0.held[i].len() by {
        let _ = lemma_held_brings(a, plan, j, held[j][0], i, Reassembly::empty());
        assert(held_on(a, i) == held_on(b, i));
    }
    lemma_held_fewer(b.pacer->0.held, a.pacer->0.held);
}

/// Everything held goes out, every frame of a stream in its order.
proof fn lemma_released_brings(f: FlowView, plan: PlanView, fuel: nat, t: int, s: Reassembly) -> (r:
    Seq<TsPacketView>)
    requires
        laid_out(plan),
        sound(f, plan),
        f.pacer is Some,
        held_count(f.pacer->0.held) <= fuel,
        f.released(plan, fuel).error is None,
        0 <= t < plan.tracks.len(),
        is_ready(s),
    ensures
        lets_out(f, f.released(plan, fuel).flow, plan, t, held_on(f, t), s, r),
        held_on(f.released(plan, fuel).flow, t).len() == 0,
    decreases fuel,
{
    let held = f.pacer->0.held;
    assert(held.len() == plan.tracks.len()) by {
        reveal(sound);
        reveal(orderly);
    }
    lemma_first_due(held, held.len() as int);
    match first_due(held, held.len() as int) {
        Some(j) => {
            lemma_none_held_at(held, j);
            let b = release_step(f, plan, j);
            let rest = (fuel - 1) as nat;
            let g = b.released(plan, rest).flow;
            let (x, p) = lemma_popped_lets_out(f, plan, j, t, s);
            lemma_release_shrinks(f, plan, j);
            lemma_lets_out_ready(f, b, plan, t, x, s, p);
            let q = lemma_released_brings(b, plan, rest, t, s.read(p).state);
            lemma_lets_out_more(f, b, g, plan, t, x, held_on(b, t), s, p, q);
            assert(held_on(f, t) == x + held_on(b, t)) by {
                reveal(lets_out);
            }
            p + q
        },
        None => {
            lemma_lets_out_nothing(f, plan, t, s);
            assert(held[t].len() == 0);
            assert(held_on(f, t) =~= Seq::empty());
            Seq::empty()
        },
    }
}

proof fn lemma_none_held_at(x: Seq<Seq<PacketView>>, t: int)
    requires
        0 <= t < x.len(),
        x[t].len() > 0,
    ensures
        held_count(x) > 0,
{
    if held_count(x) == 0 {
        lemma_none_held(x, t);
    }
}

/// Everything held goes out, if anything is held at all.
proof fn lemma_released_all_brings(f: FlowView, plan: PlanView, t: int, s: Reassembly) -> (r: Seq<
    TsPacketView,
>)
    requires
        laid_out(plan),
        sound(f, plan),
        f.released_all(plan).error is None,
        0 <= t < plan.tracks.len(),
        is_ready(s),
    ensures
        ({
            let g = f.released_all(plan).flow;
            &&& brings(f, g, plan, t, held_on(f, t), s, r)
            &&& held_on(g, t).len() == 0
            &&& sound(g, plan)
        }),
{
    if f.pacer is Some {
        let ps = lemma_released_brings(f, plan, held_count(f.pacer->0.held), t, s);
        reveal(lets_out);
        ps
    } else {
        lemma_brings_nothing(f, f, plan, t, s);
        assert(held_on(f, t) =~= Seq::empty());
        Seq::empty()
    }
}

/// The end of the stream brings every held frame of a stream, in the order in which
/// they were written, and leaves nothing held.
pub proof fn lemma_trailer_brings_held(m: MuxView, t: int, s: Reassembly) -> (r: Seq<TsPacketView>)
    requires
        is_sound(m),
        laid_out(m.plan),
        m.trailer_written().error is None,
        0 <= t < m.plan.tracks.len(),
        is_ready(s),
    ensures
        ({
            let g = m.trailer_written().mux.flow;
            &&& brings(m.flow, g, m.plan, t, held_on(m.flow, t), s, r)
            &&& held_on(g, t).len() == 0
        }),
{
    let plan = m.plan;
    let a = m.flow.released_all(plan).flow;
    let g = a.tables_put(plan, plan.tables.len() as int);
    let x = held_on(m.flow, t);
    let ps = lemma_released_all_brings(m.flow, plan, t, s);
    lemma_brings_ready(m.flow, a, plan, t, x, s, ps);
    lemma_tables_bring(a, plan, t, s.read(ps).state);
    lemma_brings_more(m.flow, a, g, plan, t, x, Seq::empty(), s, ps, Seq::empty());
    assert(x + Seq::<PacketView>::empty() =~= x);
    assert(ps + Seq::<TsPacketView>::empty() =~= ps);
    ps
}

/// Announcing a new time base brings every held frame of a stream, in the order in
/// which they were written, and leaves nothing held.
pub proof fn lemma_break_brings_held(m: MuxView, number: u16, t: int, s: Reassembly) -> (r: Seq<
    TsPacketView,
>)
    requires
        is_sound(m),
        laid_out(m.plan),
        m.discontinuity_armed(number).error is None,
        0 <= t < m.plan.tracks.len(),
        is_ready(s),
    ensures
        ({
            let g = m.discontinuity_armed(number).mux.flow;
            &&& brings(m.flow, g, m.plan, t, held_on(m.flow, t), s, r)
            &&& held_on(g, t).len() == 0
        }),
{
    let plan = m.plan;
    let a = m.flow.released_all(plan).flow;
    let g = m.discontinuity_armed(number).mux.flow;
    let x = held_on(m.flow, t);
    let ps = lemma_released_all_brings(m.flow, plan, t, s);
    lemma_brings_ready(m.flow, a, plan, t, x, s, ps);
    lemma_brings_nothing(a, g, plan, t, s.read(ps).state);
    lemma_brings_more(m.flow, a, g, plan, t, x, Seq::empty(), s, ps, Seq::empty());
    assert(x + Seq::<PacketView>::empty() =~= x);
    assert(ps + Seq::<TsPacketView>::empty() =~= ps);
    ps
}

/// What is read back of a session is what was written: of the frames `pkts`, all
/// accepted, and the end of the stream, a reassembler fed with everything on the
/// PID of a stream hands out the frames of that stream, all of them, in the order
/// in which they were written. This holds without pacing, and with it if no frame
/// without a PTS overtakes a held one.
pub proof fn lemma_session_read_back(m: MuxView, pkts: Seq<PacketView>, t: int)
    requires
        is_sound(m),
        laid_out(m.plan),
        0 <= t < m.plan.tracks.len(),
        queues_fit(m.flow, m.plan),
        held_on(m.flow, t).len() == 0,
        packets_on(m.flow.out, m.plan.tracks[t].pid).len() == 0,
        all_timely(m, pkts),
        frames_written(m, pkts).error is None,
        frames_written(m, pkts).mux.trailer_written().error is None,
    ensures
        ({
            let o = frames_written(m, pkts).mux.trailer_written().mux;
            let all = Reassembly::empty().read(packets_on(o.flow.out, m.plan.tracks[t].pid));
            all.units + all.state.closing() == units_of_all(
                m.plan,
                t,
                frames_on(m.plan, pkts, t),
            )
        }),
{
    let s = Reassembly::empty();
    let pid = m.plan.tracks[t].pid;
    let a = frames_written(m, pkts).mux;
    let g = a.trailer_written().mux;
    let (x, p) = lemma_session_in_order(m, pkts, t, s);
    lemma_brings_ready(m.flow, a.flow, m.plan, t, x, s, p);
    let y = held_on(a.flow, t);
    let q = lemma_trailer_brings_held(a, t, s.read(p).state);
    lemma_brings_more(m.flow, a.flow, g.flow, m.plan, t, x, y, s, p, q);
    let frames = frames_on(m.plan, pkts, t);
    assert(held_on(m.flow, t) + frames =~= frames);
    assert(x + y =~= frames);
    assert(packets_on(g.flow.out, pid) =~= p + q) by {
        reveal(brings);
    }
    assert(hands_out(s, p + q, units_of_all(m.plan, t, frames))) by {
        reveal(brings);
    }
    reveal(hands_out);
    assert(s.closing() + units_of_all(m.plan, t, frames) =~= units_of_all(m.plan, t, frames));
}

/// Without pacing no frame waits, so none is overtaken.
pub proof fn lemma_unpaced_in_order(m: MuxView, pkts: Seq<PacketView>, t: int)
    requires
        is_sound(m),
        m.flow.pacer is None,
    ensures
        queues_fit(m.flow, m.plan),
        held_on(m.flow, t).len() == 0,
        all_timely(m, pkts),
        is_sound(frames_written(m, pkts).mux),
        frames_written(m, pkts).mux.flow.pacer is None,
    decreases pkts.len(),
{
    if pkts.len() > 0 {
        lemma_unpaced_in_order(m, pkts.drop_last(), t);
        let o = frames_written(m, pkts.drop_last());
        if o.error is None {
            lemma_unpaced_stays(o.mux, pkts.last());
            lemma_packet_written_sound(o.mux, pkts.last());
        }
    }
}

pub(crate) proof fn lemma_unpaced_stays(m: MuxView, pkt: PacketView)
    requires
        is_sound(m),
        m.flow.pacer is None,
    ensures
        m.packet_written(pkt).mux.flow.pacer is None,
{
    match track_for_index(m.plan, pkt.stream_index, 0) {
        Some(j) if m.header_written => {
            let n = m.plan.tables.len() as int;
            lemma_track_in_range(m.plan, pkt.stream_index, 0);
            lemma_tables_steady(m.flow, m.plan, n);
            let a = match pkt.pts {
                Some(x) => m.tables_repeated(x),
                None => m,
            };
            assert(a.flow.pacer is None && a.flow.tracks.len() == m.plan.tracks.len()) by {
                reveal(steady);
                reveal(sound);
                reveal(orderly);
            }
            let o = a.flow.sent(m.plan, j, pkt, false);
            lemma_sent_steady(a.flow, m.plan, j, pkt, false);
            assert(o.flow.pacer is None) by {
                reveal(steady);
            }
            assert(a.flow.delivered(m.plan, j, pkt) == o);
        },
        _ => {},
    }
}

/// A multiplexer with a rate just set has its queues as they have to be.
pub proof fn lemma_fresh_queues_fit(m: MuxView, rate: u64)
    ensures
        queues_fit(
            FlowView {
                pacer: Some(crate::muxer::mux::fresh_pacer(m.plan, rate, m.flow.pos())),
                ..m.flow
            },
            m.plan,
        ),
{
}

} // verus!
