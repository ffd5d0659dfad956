//! A splicing point that is asked for is counted down to: the last packet of the frame
//! says zero, each before it how many are still to come, and those after it how many are
//! past.
use vstd::prelude::*;

use crate::muxer::flow::{AUDIO_TB_RX, FlowView, PlanView};
use crate::muxer::frame::{
    countdown_field, countdown_run, lemma_countdown_exact, run_covers, Riders,
};
use crate::muxer::packets::{needed, pes_take, Field};
use crate::muxer::read_back::{
    carries_field, lemma_pcr_now_fits, lemma_step_read_back, packets_on, stepped,
};
use crate::muxer::steady::{lemma_tb_paced_steady, steady};
use crate::packet::parse::TsPacketView;

verus! {

/// The countdown that packet `p` carries.
pub open spec fn countdown_of(p: TsPacketView) -> Option<i8> {
    match p.adaptation_field {
        Some(af) => af.splice_countdown,
        None => None,
    }
}

/// The type and time of a seamless splice that packet `p` carries.
pub open spec fn seamless_of(p: TsPacketView) -> Option<(u8, u64)> {
    match p.adaptation_field {
        Some(af) => match af.adaptation_field_extension {
            Some(x) => if x.splice_type is Some && x.dts_next_au is Some {
                Some((x.splice_type->0, x.dts_next_au->0))
            } else {
                None
            },
            None => None,
        },
        None => None,
    }
}

/// The packets `ps` count down to their end: every countdown in them is the number of
/// packets after it, with the type and time `seamless`, and the last one has one.
pub open spec fn counts_down(ps: Seq<TsPacketView>, seamless: Option<(u8, u64)>) -> bool {
    &&& ps.len() > 0 ==> countdown_of(ps.last()) == Some(0i8)
    &&& forall|i: int|
        0 <= i < ps.len() ==> (countdown_of(#[trigger] ps[i]) matches Some(c) ==> c == ps.len() - 1
            - i && seamless_of(ps[i]) == seamless)
}

proof fn lemma_field_told(p: TsPacketView, f: Field)
    requires
        carries_field(p, f),
    ensures
        countdown_of(p) == f.countdown,
        f.countdown is Some ==> seamless_of(p) == f.seamless,
{
}

/// The packets of a PES packet that ends in a splicing point count down to it.
pub proof fn lemma_rest_counts_down(
    f: FlowView,
    plan: PlanView,
    t: int,
    riders: Riders,
    start: bool,
    run: Option<int>,
    rest: Seq<u8>,
) -> (ps: Seq<TsPacketView>)
    requires
        0 <= t < plan.tracks.len(),
        f.tracks.len() == plan.tracks.len(),
        f.tracks[t].cc < 16,
        riders.wf(),
        riders.splice is Some,
        plan.tracks[t].pid < 0x1FFF,
        run_covers(run, riders.seamless(), rest.len() as int),
        start ==> run is None,
    ensures
        ({
            let g = f.rest_put(plan, t, riders, start, run, rest);
            let pid = plan.tracks[t].pid;
            &&& packets_on(g.out, pid) == packets_on(f.out, pid) + ps
            &&& counts_down(ps, riders.seamless())
            &&& rest.len() > 0 ==> ps.len() > 0
            &&& rest.len() == 0 ==> ps.len() == 0
            &&& run matches Some(n) ==> ps.len() == n && forall|i: int|
                0 <= i < ps.len() ==> countdown_of(#[trigger] ps[i]) is Some
        }),
    decreases rest.len(),
{
    let left = rest.len() as int;
    let pid = plan.tracks[t].pid;
    if left == 0 {
        let none = Seq::<TsPacketView>::empty();
        assert(f.rest_put(plan, t, riders, start, run, rest) == f);
        assert(packets_on(f.out, pid) + none =~= packets_on(f.out, pid));
        none
    } else {
        let a = f.paced_for(plan, t);
        let seamless = riders.seamless();
        let base = a.base_field(plan, t, riders, start);
        let field = a.packet_field(plan, t, riders, start, run, left);
        let first = lemma_step_read_back(f, plan, t, riders, start, run, rest);
        let b = stepped(f, plan, t, riders, start, run, rest);
        let n = first.payload.len() as int;
        lemma_pcr_now_fits(a);
        assert(base.wf());
        lemma_countdown_exact(run, base, seamless, left);
        let now = countdown_run(run, base, seamless, left);
        let next = a.run_after(plan, t, riders, start, run, left);
        lemma_field_told(first, field);
        assert(n == pes_take(field, left));
        if now is None {
            assert(run is None);
            assert(next is None);
            assert(run_covers(next, seamless, left - n));
            assert(n < left) by {
                lemma_needs_few(base, seamless, left);
            }
        }
        let more = lemma_rest_counts_down(b, plan, t, riders, false, next, rest.skip(n));
        let ps = seq![first] + more;
        assert(packets_on(f.out, pid).push(first) + more =~= packets_on(f.out, pid) + ps);
        assert(ps.skip(1) =~= more);
        assert forall|i: int| 0 <= i < ps.len() implies (countdown_of(
            #[trigger] ps[i],
        ) matches Some(c) ==> c == ps.len() - 1 - i && seamless_of(ps[i]) == seamless) by {
            if i > 0 {
                assert(ps[i] == more[i - 1]);
            }
        }
        if more.len() > 0 {
            assert(ps.last() == more.last());
        }
        if run is Some {
            assert forall|i: int| 0 <= i < ps.len() implies countdown_of(
                #[trigger] ps[i],
            ) is Some by {
                if i > 0 {
                    assert(ps[i] == more[i - 1]);
                }
            }
        }
        ps
    }
}

/// What one packet holds needs no more than two with a countdown.
proof fn lemma_needs_few(base: Field, seamless: Option<(u8, u64)>, left: int)
    requires
        left > 0,
        base.countdown is None,
        base.seamless is None,
        countdown_run(None, base, seamless, left) is None,
    ensures
        pes_take(base, left) < left,
{
    if pes_take(base, left) >= left {
        assert(left <= 184);
        let here = Field { countdown: Some(0), seamless, ..base };
        let cap = 184 - countdown_field(seamless).size();
        assert(cap == 181 || cap == 174);
        assert(168 <= 184 - here.size());
        let over = left - (184 - here.size());
        assert(over <= 16);
        if cap == 181 {
            assert(needed(left, 184 - here.size(), 181) <= 2);
        } else {
            assert(needed(left, 184 - here.size(), 174) <= 2);
        }
    }
}

/// A frame that is spliced ends in a splicing point, whatever was counted before; the
/// packets of its stream after it count on, from -1 down, as many as were asked for.
pub proof fn lemma_spliced_frame_counts_down(
    f: FlowView,
    plan: PlanView,
    t: int,
    riders: Riders,
    pes: Seq<u8>,
) -> (ps: Seq<TsPacketView>)
    requires
        0 <= t < plan.tracks.len(),
        f.tracks.len() == plan.tracks.len(),
        f.tracks[t].cc < 16,
        riders.wf(),
        riders.splice is Some,
        plan.tracks[t].pid < 0x1FFF,
        pes.len() > 0,
    ensures
        ({
            let g = f.pes_put(plan, t, riders, pes);
            let pid = plan.tracks[t].pid;
            let post = riders.splice->0.post_splice_packets;
            &&& packets_on(g.out, pid) == packets_on(f.out, pid) + ps
            &&& ps.len() > 0
            &&& counts_down(ps, riders.seamless())
            &&& post > 0 ==> g.tracks[t].after_splice == Some((1u8, post))
        }),
{
    let a = f.with_after_splice(t, None);
    let ps = lemma_rest_counts_down(a, plan, t, riders, true, None, pes);
    lemma_rest_tracks(a, plan, t, riders, true, None, pes);
    ps
}

proof fn lemma_rest_tracks(
    f: FlowView,
    plan: PlanView,
    t: int,
    riders: Riders,
    start: bool,
    run: Option<int>,
    rest: Seq<u8>,
)
    requires
        0 <= t < f.tracks.len(),
    ensures
        f.rest_put(plan, t, riders, start, run, rest).tracks.len() == f.tracks.len(),
    decreases rest.len(),
{
    let a = f.paced_for(plan, t);
    let left = rest.len() as int;
    let n = pes_take(a.packet_field(plan, t, riders, start, run, left), left);
    if !(left == 0 || n <= 0 || n > left) {
        lemma_tb_paced_steady(
            f,
            plan.tracks[t].pid,
            AUDIO_TB_RX as int,
        );
        assert(a.tracks.len() == f.tracks.len()) by {
            reveal(steady);
        }
        lemma_rest_tracks(
            a.packet_put(plan, t, riders, start, run, rest),
            plan,
            t,
            riders,
            false,
            a.run_after(plan, t, riders, start, run, left),
            rest.skip(n),
        );
    }
}

/// After a splicing point the next packet of the stream that carries data of a frame
/// that is not spliced says how far it is past: -1, then -2, up to as many as asked for,
/// and then nothing.
pub proof fn lemma_counts_past_splice(
    f: FlowView,
    plan: PlanView,
    t: int,
    riders: Riders,
    start: bool,
    rest: Seq<u8>,
    next: u8,
    total: u8,
) -> (p: TsPacketView)
    requires
        0 <= t < plan.tracks.len(),
        f.tracks.len() == plan.tracks.len(),
        f.tracks[t].cc < 16,
        riders.wf(),
        riders.splice is None,
        plan.tracks[t].pid < 0x1FFF,
        rest.len() > 0,
        f.tracks[t].after_splice == Some((next, total)),
        1 <= next <= total <= 127,
    ensures
        ({
            let g = stepped(f, plan, t, riders, start, None, rest);
            let pid = plan.tracks[t].pid;
            &&& packets_on(g.out, pid) == packets_on(f.out, pid).push(p)
            &&& countdown_of(p) matches Some(c) && c == -next
            &&& g.tracks[t].after_splice == if next < total {
                Some(((next + 1) as u8, total))
            } else {
                None
            }
        }),
{
    let a = f.paced_for(plan, t);
    let p = lemma_step_read_back(f, plan, t, riders, start, None, rest);
    lemma_tb_paced_steady(
        f,
        plan.tracks[t].pid,
        AUDIO_TB_RX as int,
    );
    assert(a.tracks[t] == f.tracks[t]) by {
        reveal(steady);
    }
    lemma_field_told(p, a.packet_field(plan, t, riders, start, None, rest.len() as int));
    p
}

} // verus!
