//! What the packets of one stream say of splicing and random access agrees.
use vstd::prelude::*;

use crate::muxer::deliver::riders_for;
use crate::muxer::flow::{FlowView, PlanView, TrackFlow};
use crate::muxer::frame::{countdown_run, lemma_countdown_exact, run_covers, Riders};
use crate::muxer::packets::{lemma_field_bytes, pes_take, Field};
use crate::muxer::read_back::{
    carries_field, lemma_packet_field_fits, lemma_step_read_back, packets_on, stepped,
};
use crate::packet::parse::TsPacketView;
use crate::pes::reassemble::carries_rai;
use crate::validate::splice::{SpliceRun, SpliceSigns};
use crate::validate::stream::splice_pair;

verus! {

/// What packet `p` says of splicing.
pub open spec fn signs_of(p: TsPacketView) -> SpliceSigns {
    SpliceSigns {
        counts: p.payload.len() > 0,
        countdown: match p.adaptation_field {
            Some(af) => af.splice_countdown,
            None => None,
        },
        pair: match p.adaptation_field {
            Some(af) => splice_pair(af.adaptation_field_extension),
            None => None,
        },
    }
}

/// The splice run after the packets `ps`.
pub open spec fn run_of(ps: Seq<TsPacketView>) -> SpliceRun
    decreases ps.len(),
{
    if ps.len() == 0 {
        SpliceRun::idle()
    } else {
        run_of(ps.drop_last()).after(signs_of(ps.last()))
    }
}

/// The packet starts a PES packet and ends it with a splicing point.
pub open spec fn splices_at_once(p: TsPacketView) -> bool {
    p.payload_unit_start && signs_of(p).countdown == Some(0i8)
}

/// Packet `p` agrees with the splice run before it, but for one that is whole a
/// PES packet before a splicing point.
pub open spec fn agrees_with(run: SpliceRun, p: TsPacketView) -> bool {
    &&& run.countdown_wrong(signs_of(p)) ==> splices_at_once(p)
    &&& !run.seamless_broken(signs_of(p))
}

/// Every packet agrees with the splice run before it.
#[verifier::opaque]
pub open spec fn all_agree(ps: Seq<TsPacketView>) -> bool
    decreases ps.len(),
{
    ps.len() == 0 || (all_agree(ps.drop_last()) && agrees_with(
        run_of(ps.drop_last()),
        ps.last(),
    ))
}

/// Where `clocked`, packet `p` carries a PCR if it is an access point; where
/// `plain`, it has no splice type other than 0.
pub open spec fn clocked_marks(p: TsPacketView, clocked: bool, plain: bool) -> bool {
    &&& clocked && carries_rai(p) ==> p.adaptation_field->0.pcr_flag
    &&& plain ==> (signs_of(p).pair matches Some((t, _)) ==> t == 0)
}

/// All of the packets `ps` are marked so.
#[verifier::opaque]
pub open spec fn all_marked(ps: Seq<TsPacketView>, clocked: bool, plain: bool) -> bool {
    forall|i: int| 0 <= i < ps.len() ==> clocked_marks(#[trigger] ps[i], clocked, plain)
}

/// The packets `ps` have no adaptation field.
#[verifier::opaque]
pub open spec fn all_mute(ps: Seq<TsPacketView>) -> bool {
    forall|i: int| 0 <= i < ps.len() ==> (#[trigger] ps[i]).adaptation_field is None
}

/// One more packet that is mute.
pub proof fn lemma_mute_more(ps: Seq<TsPacketView>, p: TsPacketView)
    requires
        all_mute(ps),
        p.adaptation_field is None,
    ensures
        all_mute(ps.push(p)),
{
    reveal(all_mute);
    assert forall|i: int| 0 <= i < ps.push(p).len() implies (
    #[trigger] ps.push(p)[i]).adaptation_field is None by {
        if i < ps.len() {
            assert(ps.push(p)[i] == ps[i]);
        }
    }
}

/// One more packet.
pub proof fn lemma_agrees_more(ps: Seq<TsPacketView>, p: TsPacketView)
    requires
        all_agree(ps),
        agrees_with(run_of(ps), p),
    ensures
        all_agree(ps.push(p)),
        run_of(ps.push(p)) == run_of(ps).after(signs_of(p)),
{
    reveal(all_agree);
    assert(ps.push(p).drop_last() =~= ps);
}

/// One more packet.
pub proof fn lemma_marked_more(ps: Seq<TsPacketView>, p: TsPacketView, clocked: bool, plain: bool)
    requires
        all_marked(ps, clocked, plain),
        clocked_marks(p, clocked, plain),
    ensures
        all_marked(ps.push(p), clocked, plain),
{
    reveal(all_marked);
    assert forall|i: int| 0 <= i < ps.push(p).len() implies clocked_marks(
        #[trigger] ps.push(p)[i],
        clocked,
        plain,
    ) by {
        if i < ps.len() {
            assert(ps.push(p)[i] == ps[i]);
        }
    }
}

/// Each packet agrees with those before it.
pub proof fn lemma_agrees_at(ps: Seq<TsPacketView>, k: int)
    requires
        all_agree(ps),
        0 <= k < ps.len(),
    ensures
        agrees_with(run_of(ps.take(k)), ps[k]),
    decreases ps.len(),
{
    reveal(all_agree);
    let head = ps.drop_last();
    if k < head.len() {
        lemma_agrees_at(head, k);
        assert(head.take(k) =~= ps.take(k));
    } else {
        assert(ps.take(k) =~= head);
    }
}

/// Mute packets start no splice run.
pub proof fn lemma_mute_is_idle(ps: Seq<TsPacketView>, k: int)
    requires
        all_mute(ps),
        0 <= k <= ps.len(),
    ensures
        run_of(ps.take(k)) == SpliceRun::idle(),
    decreases k,
{
    if k > 0 {
        lemma_mute_is_idle(ps, k - 1);
        assert(ps.take(k).drop_last() =~= ps.take(k - 1));
        assert(signs_of(ps[k - 1]).countdown is None) by {
            reveal(all_mute);
        }
    }
}

/// The run is over: what is counted is zero or less, and goes on as the stream
/// counts after a splicing point.
pub open spec fn is_over(run: SpliceRun, after: Option<(u8, u8)>) -> bool {
    &&& run.seamless is None
    &&& run.last matches Some((c, since)) ==> {
        &&& -128 <= c <= 127
        &&& 0 <= since <= 1000
        &&& -128 <= c - since <= 0
        &&& after matches Some((next, _)) ==> c - since == 1 - next
    }
}

/// The last packet counted `v`.
pub open spec fn is_at(run: SpliceRun, v: int, pair: Option<(u8, u64)>) -> bool {
    &&& 0 <= v <= 127
    &&& run.last == Some((v as i32, 0i32))
    &&& run.seamless == (if v > 0 { pair } else { None })
}

/// The run, before the rest of a PES packet.
pub open spec fn goes_along(
    run: SpliceRun,
    riders: Riders,
    r: Option<int>,
    after: Option<(u8, u8)>,
) -> bool {
    match riders.splice {
        None => is_over(run, after),
        Some(_) => match r {
            None => is_over(run, None) && after is None,
            Some(v) => is_at(run, v, riders.seamless()),
        },
    }
}

/// A packet without payload that says nothing of splicing changes no run.
pub proof fn lemma_quiet_agrees(run: SpliceRun, p: TsPacketView, after: Option<(u8, u8)>)
    requires
        is_over(run, after),
        p.payload.len() == 0,
        signs_of(p).countdown is None,
    ensures
        agrees_with(run, p),
        is_over(run.after(signs_of(p)), after),
{
}

/// The field of a packet is what it says of splicing.
proof fn lemma_signs_of_field(p: TsPacketView, f: Field)
    requires
        carries_field(p, f),
    ensures
        signs_of(p).countdown == f.countdown,
        signs_of(p).pair == f.seamless,
        carries_rai(p) == f.random_access,
        f.random_access ==> p.adaptation_field is Some && p.adaptation_field->0.pcr_flag == f.pcr
            is Some,
{
}

/// One packet of a PES packet agrees with the run before it.
proof fn lemma_step_agrees(
    run: SpliceRun,
    p: TsPacketView,
    riders: Riders,
    r: Option<int>,
    tf: TrackFlow,
    base: Field,
    field: Field,
    left: int,
)
    requires
        riders.wf(),
        tf.wf(),
        left > 0,
        goes_along(run, riders, r, tf.after_splice),
        r is Some ==> riders.splice is Some && base.is_bare() && !p.payload_unit_start,
        run_covers(r, riders.seamless(), left),
        p.payload_unit_start || r is Some || riders.splice is None || left > 184,
        base.wf(),
        base.countdown is None && base.seamless is None,
        p.payload.len() > 0,
        p.payload.len() == pes_take(field, left),
        carries_field(p, field),
        field == (if riders.splice is Some {
            match countdown_run(r, base, riders.seamless(), left) {
                Some(n) => Field {
                    countdown: Some((n - 1) as i8),
                    seamless: riders.seamless(),
                    ..base
                },
                None => base,
            }
        } else {
            match tf.after_splice {
                Some((next, _)) => Field { countdown: Some((0 - next) as i8), ..base },
                None => base,
            }
        }),
    ensures
        agrees_with(run, p),
        ({
            let next = if riders.splice is None {
                None
            } else {
                match countdown_run(r, base, riders.seamless(), left) {
                    Some(k) => Some(k - 1),
                    None => None::<int>,
                }
            };
            let after = if riders.splice is Some {
                tf.after_splice
            } else {
                match tf.after_splice {
                    Some((a, b)) if a < b => Some(((a + 1) as u8, b)),
                    _ => None,
                }
            };
            &&& goes_along(run.after(signs_of(p)), riders, next, after)
            &&& run_covers(next, riders.seamless(), left - p.payload.len())
            &&& next is Some || riders.splice is None || left - p.payload.len() > 184
        }),
{
    lemma_signs_of_field(p, field);
    let seamless = riders.seamless();
    if riders.splice is Some {
        lemma_countdown_exact(r, base, seamless, left);
        let now = countdown_run(r, base, seamless, left);
        lemma_field_bytes(base, 0);
        lemma_field_bytes(crate::muxer::frame::countdown_field(seamless), 0);
        let here = Field { countdown: Some(0), seamless, ..base };
        let cap = 184 - crate::muxer::frame::countdown_field(seamless).size();
        assert(cap == 181 || cap == 174);
        assert(0 < 184 - here.size() <= 181);
        if now is Some {
            let n = now->0;
            assert(((n - 1) as i8) == n - 1);
            if r is None && n == 1 {
                assert(left <= 184 - here.size());
            }
        } else {
            let room = 184 - here.size();
            let over = left - room;
            assert(over > 0);
            if cap == 181 {
                assert(1 + (over + 180) / 181 > 128);
            } else {
                assert(1 + (over + 173) / 174 > 128);
            }
            assert(left > 1000);
        }
    } else {
        match tf.after_splice {
            Some((next, _)) => {
                assert(((0 - next) as i8) == 0 - next);
            },
            None => {},
        }
    }
}

/// What one stream's packets say agrees, up to the splice run `along`.
pub open spec fn is_tidy(
    ps: Seq<TsPacketView>,
    after: Option<(u8, u8)>,
    clocked: bool,
    plain: bool,
) -> bool {
    &&& all_agree(ps)
    &&& all_marked(ps, clocked, plain)
    &&& is_over(run_of(ps), after)
}

/// What goes along with a frame agrees with its stream.
pub open spec fn fits_stream(riders: Riders, clocked: bool, plain: bool) -> bool {
    &&& riders.wf()
    &&& clocked && riders.random_access ==> riders.pcr is Some
    &&& plain ==> (riders.seamless() matches Some((t, _)) ==> t == 0)
}

/// The rest of a PES packet agrees.
proof fn lemma_rest_tidy(
    f: FlowView,
    plan: PlanView,
    t: int,
    riders: Riders,
    start: bool,
    r: Option<int>,
    rest: Seq<u8>,
    clocked: bool,
    plain: bool,
)
    requires
        0 <= t < plan.tracks.len(),
        f.tracks.len() == plan.tracks.len(),
        f.tracks[t].wf(),
        plan.tracks[t].pid < 0x1FFF,
        fits_stream(riders, clocked, plain),
        all_agree(packets_on(f.out, plan.tracks[t].pid)),
        all_marked(packets_on(f.out, plan.tracks[t].pid), clocked, plain),
        goes_along(
            run_of(packets_on(f.out, plan.tracks[t].pid)),
            riders,
            r,
            f.tracks[t].after_splice,
        ),
        r is Some ==> riders.splice is Some && !start,
        run_covers(r, riders.seamless(), rest.len() as int),
        start ==> rest.len() > 0,
        start || r is Some || riders.splice is None || rest.len() > 184,
    ensures
        ({
            let g = f.rest_put(plan, t, riders, start, r, rest);
            let ps = packets_on(g.out, plan.tracks[t].pid);
            &&& all_agree(ps)
            &&& all_marked(ps, clocked, plain)
            &&& g.tracks.len() == f.tracks.len()
            &&& g.tracks[t].wf()
            &&& g.tracks[t].splice == f.tracks[t].splice
            &&& riders.splice is None ==> is_over(run_of(ps), g.tracks[t].after_splice)
            &&& riders.splice is Some ==> is_at(run_of(ps), 0, None) && g.tracks[t].after_splice
                == f.tracks[t].after_splice
        }),
    decreases rest.len(),
{
    let left = rest.len() as int;
    let pid = plan.tracks[t].pid;
    if left > 0 {
        let a = f.paced_for(plan, t);
        let p = lemma_step_read_back(f, plan, t, riders, start, r, rest);
        let b = stepped(f, plan, t, riders, start, r, rest);
        let field = a.packet_field(plan, t, riders, start, r, left);
        let base = a.base_field(plan, t, riders, start);
        lemma_packet_field_fits(a, plan, t, riders, start, r, left);
        crate::muxer::read_back::lemma_pcr_now_fits(a);
        let ps = packets_on(f.out, pid);
        lemma_step_agrees(run_of(ps), p, riders, r, f.tracks[t], base, field, left);
        lemma_agrees_more(ps, p);
        lemma_signs_of_field(p, field);
        lemma_marked_more(ps, p, clocked, plain);
        let n = p.payload.len() as int;
        lemma_rest_tidy(
            b,
            plan,
            t,
            riders,
            false,
            a.run_after(plan, t, riders, start, r, left),
            rest.skip(n),
            clocked,
            plain,
        );
    }
}

/// The PES packets of a frame agree.
pub proof fn lemma_frame_tidy(
    f: FlowView,
    plan: PlanView,
    t: int,
    riders: Riders,
    packets: Seq<Seq<u8>>,
    n: int,
    clocked: bool,
    plain: bool,
)
    requires
        0 <= t < plan.tracks.len(),
        f.tracks.len() == plan.tracks.len(),
        f.tracks[t].wf(),
        plan.tracks[t].pid < 0x1FFF,
        fits_stream(riders, clocked, plain),
        0 <= n <= packets.len(),
        forall|i: int| 0 <= i < packets.len() ==> (#[trigger] packets[i]).len() > 0,
        is_tidy(
            packets_on(f.out, plan.tracks[t].pid),
            f.tracks[t].after_splice,
            clocked,
            plain,
        ),
    ensures
        ({
            let g = f.frame_put(plan, t, riders, packets, n);
            &&& is_tidy(
                packets_on(g.out, plan.tracks[t].pid),
                g.tracks[t].after_splice,
                clocked,
                plain,
            )
            &&& g.tracks.len() == f.tracks.len()
            &&& g.tracks[t].wf()
            &&& g.tracks[t].splice == f.tracks[t].splice
        }),
    decreases n,
{
    if n > 0 {
        lemma_frame_tidy(f, plan, t, riders, packets, n - 1, clocked, plain);
        let a = f.frame_put(plan, t, riders, packets, n - 1);
        let mine = riders_for(riders, n - 1, packets.len() - 1);
        let pes = packets[n - 1];
        match mine.splice {
            None => {
                lemma_rest_tidy(a, plan, t, mine, true, None, pes, clocked, plain);
            },
            Some(_) => {
                let b = a.with_after_splice(t, None);
                assert(b.tracks[t].wf());
                assert(is_over(run_of(packets_on(b.out, plan.tracks[t].pid)), None));
                lemma_rest_tidy(b, plan, t, mine, true, None, pes, clocked, plain);
                let c = b.rest_put(plan, t, mine, true, None, pes);
                let g = a.pes_put(plan, t, mine, pes);
                assert(g.out == c.out);
                assert(g.tracks[t].after_splice == (if mine.splice->0.post_splice_packets > 0 {
                    Some((1u8, mine.splice->0.post_splice_packets))
                } else {
                    None
                }));
            },
        }
    }
}

/// Nothing said agrees.
pub proof fn lemma_nothing_tidy(after: Option<(u8, u8)>, clocked: bool, plain: bool)
    ensures
        is_tidy(Seq::empty(), after, clocked, plain),
{
    reveal(all_agree);
    reveal(all_marked);
}

} // verus!
