//! Whatever calls a session is made of, the frames that were written come back.
use vstd::prelude::*;

use crate::muxer::draining::{called, lemma_joined_output, played, Call};
use crate::muxer::flow::{FlowView, PacketView, PlanView};
use crate::muxer::frame_read_back::{hands_out, is_ready};
use crate::muxer::mux::{track_for_index, MuxView};
use crate::muxer::plan_laws::laid_out;
use crate::muxer::read_back::packets_on;
use crate::muxer::session_conformance::lemma_call_sound;
use crate::muxer::session_laws::{
    is_timely, lemma_break_brings_held, lemma_queue_goes_on, lemma_tables_bring,
    lemma_trailer_brings_held, lemma_unpaced_stays, lemma_written_in_order, queues_fit, written_on,
};
use crate::muxer::session_read_back::{
    brings, held_on, lemma_brings_more, lemma_brings_nothing, lemma_brings_ready, units_of_all,
};
use crate::muxer::steady::{lemma_tables_steady, steady};
use crate::muxer::well_formed::{is_sound, lemma_track_in_range, orderly, sound};
use crate::packet::parse::TsPacketView;
use crate::pes::reassemble::Reassembly;

verus! {

/// Call `c` is accepted, and lets no frame of stream `t` overtake another or get
/// lost: a frame without a PTS comes while none is held, and no rate is set while
/// one is held.
pub open spec fn goes_smoothly(m: MuxView, c: Call, t: int) -> bool {
    &&& called(m, c).error is None
    &&& match c {
        Call::Frame(pkt) => is_timely(m, pkt),
        Call::Rate(_) => held_on(m.flow, t).len() == 0,
        _ => true,
    }
}

/// The frames of stream `t` in call `c`: the one that it writes, or none.
pub open spec fn call_frames(plan: PlanView, c: Call, t: int) -> Seq<PacketView> {
    match c {
        Call::Frame(pkt) => written_on(plan, pkt, t),
        _ => Seq::empty(),
    }
}

/// Queues without a frame are as they have to be.
proof fn lemma_empty_queues_fit(f: FlowView, plan: PlanView)
    requires
        f.pacer is Some ==> f.pacer->0.held.len() == plan.tracks.len(),
        forall|i: int| 0 <= i < plan.tracks.len() ==> (#[trigger] held_on(f, i)).len() == 0,
    ensures
        queues_fit(f, plan),
{
    if f.pacer is Some {
        assert forall|i: int| 0 <= i < plan.tracks.len() implies (
        #[trigger] f.pacer->0.held[i]).len() == 0 by {
            assert(held_on(f, i).len() == 0);
        }
    }
}

/// A call brings the frames of a stream in their order: what was held, and then
/// what the call writes, is what comes out, and then what is held.
pub proof fn lemma_call_in_order(m: MuxView, c: Call, t: int, s: Reassembly) -> (r: (
    Seq<PacketView>,
    Seq<TsPacketView>,
))
    requires
        is_sound(m),
        laid_out(m.plan),
        queues_fit(m.flow, m.plan),
        goes_smoothly(m, c, t),
        0 <= t < m.plan.tracks.len(),
        is_ready(s),
    ensures
        ({
            let o = called(m, c).mux;
            &&& brings(m.flow, o.flow, m.plan, t, r.0, s, r.1)
            &&& held_on(m.flow, t) + call_frames(m.plan, c, t) == r.0 + held_on(o.flow, t)
            &&& queues_fit(o.flow, m.plan)
            &&& is_sound(o)
            &&& o.plan == m.plan
        }),
{
    let none = Seq::<PacketView>::empty();
    let no_packets = Seq::<TsPacketView>::empty();
    let o = called(m, c).mux;
    let plan = m.plan;
    lemma_call_sound(m, c);
    assert(o.flow.tracks.len() == plan.tracks.len() && m.flow.tracks.len() == plan.tracks.len() && (
    o.flow.pacer is Some ==> o.flow.pacer->0.held.len() == plan.tracks.len())) by {
        reveal(sound);
        reveal(orderly);
    }
    match c {
        Call::Frame(pkt) => lemma_written_in_order(m, pkt, t, s),
        Call::Header => {
            lemma_tables_bring(m.flow, plan, t, s);
            assert(o.flow == m.tables_written().flow);
            assert(held_on(m.flow, t) + none =~= none + held_on(o.flow, t));
            (none, no_packets)
        },
        Call::Break(number) => {
            let x = held_on(m.flow, t);
            let ps = lemma_break_brings_held(m, number, t, s);
            assert forall|i: int| 0 <= i < plan.tracks.len() implies (
            #[trigger] held_on(o.flow, i)).len() == 0 by {
                let _ = lemma_break_brings_held(m, number, i, Reassembly::empty());
            }
            lemma_empty_queues_fit(o.flow, plan);
            assert(held_on(m.flow, t) + none =~= x + held_on(o.flow, t));
            (x, ps)
        },
        Call::Trailer => {
            let x = held_on(m.flow, t);
            let ps = lemma_trailer_brings_held(m, t, s);
            assert forall|i: int| 0 <= i < plan.tracks.len() implies (
            #[trigger] held_on(o.flow, i)).len() == 0 by {
                let _ = lemma_trailer_brings_held(m, i, Reassembly::empty());
            }
            lemma_empty_queues_fit(o.flow, plan);
            assert(held_on(m.flow, t) + none =~= x + held_on(o.flow, t));
            (x, ps)
        },
        Call::Rate(_) => {
            lemma_brings_nothing(m.flow, o.flow, plan, t, s);
            assert forall|i: int| 0 <= i < plan.tracks.len() implies (
            #[trigger] held_on(o.flow, i)).len() == 0 by {}
            lemma_empty_queues_fit(o.flow, plan);
            assert(held_on(m.flow, t) + none =~= none + held_on(o.flow, t));
            (none, no_packets)
        },
        Call::Splice(index, _) => {
            if track_for_index(plan, index, 0) is Some {
                lemma_track_in_range(plan, index, 0);
            }
            lemma_brings_nothing(m.flow, o.flow, plan, t, s);
            assert(held_on(m.flow, t) + none =~= none + held_on(o.flow, t));
            (none, no_packets)
        },
        _ => {
            lemma_brings_nothing(m.flow, o.flow, plan, t, s);
            assert(held_on(m.flow, t) + none =~= none + held_on(o.flow, t));
            (none, no_packets)
        },
    }
}

/// Every one of the calls `cs` goes smoothly for stream `t`.
pub open spec fn all_smooth(m: MuxView, cs: Seq<Call>, t: int) -> bool
    decreases cs.len(),
{
    cs.len() == 0 || (all_smooth(m, cs.drop_last(), t) && goes_smoothly(
        played(m, cs.drop_last(), false).mux,
        cs.last(),
        t,
    ))
}

/// The frames of stream `t` among the calls `cs`.
pub open spec fn frames_among(plan: PlanView, cs: Seq<Call>, t: int) -> Seq<PacketView>
    decreases cs.len(),
{
    if cs.len() == 0 {
        Seq::empty()
    } else {
        frames_among(plan, cs.drop_last(), t) + call_frames(plan, cs.last(), t)
    }
}

/// Calls bring the frames of a stream in their order, the last ones being held.
#[verifier::spinoff_prover]
pub proof fn lemma_calls_in_order(m: MuxView, cs: Seq<Call>, t: int, s: Reassembly) -> (r: (
    Seq<PacketView>,
    Seq<TsPacketView>,
))
    requires
        is_sound(m),
        laid_out(m.plan),
        queues_fit(m.flow, m.plan),
        all_smooth(m, cs, t),
        0 <= t < m.plan.tracks.len(),
        is_ready(s),
    ensures
        ({
            let o = played(m, cs, false).mux;
            &&& brings(m.flow, o.flow, m.plan, t, r.0, s, r.1)
            &&& held_on(m.flow, t) + frames_among(m.plan, cs, t) == r.0 + held_on(o.flow, t)
            &&& queues_fit(o.flow, m.plan)
            &&& is_sound(o)
            &&& o.plan == m.plan
        }),
    decreases cs.len(),
{
    let none = Seq::<PacketView>::empty();
    if cs.len() == 0 {
        lemma_brings_nothing(m.flow, m.flow, m.plan, t, s);
        assert(held_on(m.flow, t) + none =~= none + held_on(m.flow, t));
        (none, Seq::empty())
    } else {
        let a = played(m, cs.drop_last(), false).mux;
        let g = played(m, cs, false).mux;
        let (x, p) = lemma_calls_in_order(m, cs.drop_last(), t, s);
        lemma_brings_ready(m.flow, a.flow, m.plan, t, x, s, p);
        let (y, q) = lemma_call_in_order(a, cs.last(), t, s.read(p).state);
        lemma_brings_more(m.flow, a.flow, g.flow, m.plan, t, x, y, s, p, q);
        lemma_queue_goes_on(
            held_on(m.flow, t),
            held_on(a.flow, t),
            held_on(g.flow, t),
            frames_among(m.plan, cs.drop_last(), t),
            call_frames(m.plan, cs.last(), t),
            x,
            y,
        );
        (x + y, p + q)
    }
}

/// What is read back of a session is what was written, whatever calls it is made
/// of and however often the output is taken out: of everything that was taken out
/// and what is left, joined, a reassembler fed with the packets on the PID of a
/// stream hands out the frames of that stream, all of them, in the order in which
/// they were written. Splicing points, breaks of the time base and tables go along
/// and change nothing. With pacing this holds if no frame without a PTS overtakes a
/// held one and none is held at the end.
pub proof fn lemma_calls_read_back(m: MuxView, cs: Seq<Call>, t: int)
    requires
        is_sound(m),
        laid_out(m.plan),
        0 <= t < m.plan.tracks.len(),
        queues_fit(m.flow, m.plan),
        held_on(m.flow, t).len() == 0,
        packets_on(m.flow.out, m.plan.tracks[t].pid).len() == 0,
        all_smooth(m, cs, t),
        held_on(played(m, cs, false).mux.flow, t).len() == 0,
    ensures
        ({
            let a = played(m, cs, true);
            let all = Reassembly::empty().read(
                packets_on(a.taken + a.mux.flow.out, m.plan.tracks[t].pid),
            );
            all.units + all.state.closing() == units_of_all(
                m.plan,
                t,
                frames_among(m.plan, cs, t),
            )
        }),
{
    let s = Reassembly::empty();
    let pid = m.plan.tracks[t].pid;
    let frames = frames_among(m.plan, cs, t);
    let g = played(m, cs, false).mux;
    lemma_joined_output(m, cs);
    let (x, p) = lemma_calls_in_order(m, cs, t, s);
    assert(held_on(m.flow, t) + frames =~= frames);
    assert(x + held_on(g.flow, t) =~= x);
    assert(packets_on(g.flow.out, pid) =~= p) by {
        reveal(brings);
    }
    assert(hands_out(s, p, units_of_all(m.plan, t, frames))) by {
        reveal(brings);
    }
    reveal(hands_out);
    assert(s.closing() + units_of_all(m.plan, t, frames) =~= units_of_all(m.plan, t, frames));
}

/// Without pacing every call that is accepted goes smoothly, and nothing is held.
pub proof fn lemma_unpaced_smooth(m: MuxView, cs: Seq<Call>, t: int)
    requires
        is_sound(m),
        m.flow.pacer is None,
        0 <= t < m.plan.tracks.len(),
        forall|i: int| 0 <= i < cs.len() ==> ((#[trigger] cs[i]) matches Call::Rate(r) ==> r is None),
        forall|i: int|
            0 <= i < cs.len() ==> (#[trigger] played(m, cs, false).answers[i]) is None,
    ensures
        all_smooth(m, cs, t),
        played(m, cs, false).mux.flow.pacer is None,
        held_on(played(m, cs, false).mux.flow, t).len() == 0,
        is_sound(played(m, cs, false).mux),
        played(m, cs, false).mux.plan == m.plan,
        played(m, cs, false).answers.len() == cs.len(),
    decreases cs.len(),
{
    if cs.len() > 0 {
        let head = cs.drop_last();
        let n = cs.len() - 1;
        let a = played(m, head, false);
        let b = played(m, cs, false);
        assert forall|i: int| 0 <= i < head.len() implies ((#[trigger] head[i]) matches Call::Rate(
            r,
        ) ==> r is None) by {
            assert(head[i] == cs[i]);
        }
        lemma_answers_counted(m, head);
        assert(b.answers == a.answers.push(called(a.mux, cs.last()).error));
        assert forall|i: int| 0 <= i < head.len() implies (#[trigger] a.answers[i]) is None by {
            assert(b.answers[i] == a.answers[i]);
        }
        lemma_unpaced_smooth(m, head, t);
        assert(called(a.mux, cs.last()).error is None) by {
            assert(b.answers[n] is None);
        }
        assert(cs[n] matches Call::Rate(r) ==> r is None);
        lemma_call_sound(a.mux, cs.last());
        lemma_call_unpaced(a.mux, cs.last());
    }
}

/// Every call has an answer.
proof fn lemma_answers_counted(m: MuxView, cs: Seq<Call>)
    ensures
        played(m, cs, false).answers.len() == cs.len(),
    decreases cs.len(),
{
    if cs.len() > 0 {
        lemma_answers_counted(m, cs.drop_last());
    }
}

/// Pacing stays off.
proof fn lemma_call_unpaced(m: MuxView, c: Call)
    requires
        is_sound(m),
        m.flow.pacer is None,
        c matches Call::Rate(r) ==> r is None,
    ensures
        called(m, c).mux.flow.pacer is None,
{
    lemma_tables_steady(m.flow, m.plan, m.plan.tables.len() as int);
    assert(m.tables_written().flow.pacer is None) by {
        reveal(steady);
    }
    match c {
        Call::Frame(pkt) => {
            lemma_unpaced_stays(m, pkt);
        },
        _ => {},
    }
}

} // verus!
