//! What a session writes, taken out as often as one likes, is reported and read
//! back as one stream.
use vstd::prelude::*;

use crate::muxer::clocking::{heard, lemma_not_late_at, none_late, on_time};
use crate::muxer::config::SpliceSpec;
use crate::muxer::conformance::{
    lemma_framing_found, lemma_has_owner, lemma_packet_in_turn, lemma_packets_clean,
    lemma_pcr_pid_clocked, lemma_prefix_grows, lemma_report_of_output, plain_stream, splices_again,
};
use crate::muxer::counting::owned;
use crate::muxer::draining::{called, lemma_joined_output, played, Call};
use crate::muxer::emit::guarded;
use crate::muxer::flow::PlanView;
use crate::muxer::mux::{program_for, track_for_index, MuxView};
use crate::muxer::punctual::{
    is_in_time, is_punctual, lemma_call_punctual, lemma_fresh_punctual, lemma_sent_on_time,
    lemma_tables_on_time, lemma_tables_programs, moves_on,
};
use crate::muxer::read_back::{lemma_packets_on_put, packets_on};
use crate::muxer::settling::{homed, is_clocked, settled};
use crate::muxer::tidy::all_mute;
use crate::muxer::well_formed::{
    is_sound, is_stream, lemma_packet_written_sound, lemma_program_in_range, lemma_settings_sound,
    lemma_signals_sound, lemma_tables_written_sound, lemma_track_in_range,
    lemma_trailer_written_sound, orderly, sound,
};
use crate::packet::layout::{detected_layout, TsPacketLayout};
use crate::validate::discovery::NULL_PID;
use crate::validate::report::TsValidationReport;
use crate::validate::stream::{Rule, TsStream};

verus! {

/// A validation follows the clock on a PID as its packets go.
proof fn lemma_clock_followed(out: Seq<u8>, pid: u16, i: int)
    requires
        is_stream(out),
        pid != NULL_PID,
        0 <= i <= plain_stream(out).len(),
    ensures
        ({
            let st = plain_stream(out).pcr_state(pid, i);
            let h = heard(packets_on(out.take(188 * i), pid));
            &&& st.pending_discontinuity == h.pending
            &&& match st.last {
                Some((ticks, _)) => h.last == Some(ticks),
                None => h.last is None,
            }
        }),
    decreases i,
{
    if i == 0 {
        reveal(packets_on);
        assert(packets_on(out.take(0), pid).len() == 0);
    } else {
        let s = plain_stream(out);
        lemma_clock_followed(out, pid, i - 1);
        lemma_prefix_grows(out, i - 1);
        lemma_packets_clean(out, i - 1);
        let before = packets_on(out.take(188 * (i - 1)), pid);
        lemma_packets_on_put(out.take(188 * (i - 1)), s.raw(i - 1), pid);
        if s.on(pid, i - 1) {
            assert(before.push(s.packet(i - 1)).drop_last() =~= before);
        }
    }
}

/// A packet of a punctual multiplexer is not late.
proof fn lemma_not_late(m: MuxView, i: int)
    requires
        is_punctual(m),
        0 <= i < plain_stream(m.flow.out).len(),
    ensures
        !plain_stream(m.flow.out).breaks(Rule::LatePcr, i),
{
    let out = m.flow.out;
    let s = plain_stream(out);
    let p = s.packet(i);
    let q = p.pid;
    assert(is_stream(out)) by {
        reveal(sound);
        reveal(orderly);
    }
    if s.counts(i) && s.programs().pcr_pids.contains(q) {
        lemma_has_owner(m, i);
        lemma_packet_in_turn(out, i);
        lemma_clock_followed(out, q, i);
        let k = packets_on(out.take(188 * i), q).len() as int;
        if exists|t: int| 0 <= t < m.plan.tracks.len() && (#[trigger] m.plan.tracks[t]).pid == q {
            let t = choose|t: int|
                0 <= t < m.plan.tracks.len() && (#[trigger] m.plan.tracks[t]).pid == q;
            lemma_pcr_pid_clocked(m, t);
            assert(none_late(packets_on(out, q))) by {
                reveal(on_time);
                assert(none_late(packets_on(out, m.plan.tracks[t].pid)));
            }
            lemma_not_late_at(packets_on(out, q), k);
        } else {
            let x = choose|x: int|
                0 <= x < m.plan.tables.len() && (#[trigger] m.plan.tables[x]).pid == q;
            assert(all_mute(packets_on(out, m.plan.tables[x].pid))) by {
                reveal(sound);
                reveal(settled);
            }
            assert(packets_on(out, q)[k].adaptation_field is None) by {
                reveal(all_mute);
            }
        }
    }
}

/// A validation never finds a late clock reference in the output of a punctual
/// multiplexer.
pub proof fn lemma_clocks_kept(m: MuxView, n: int)
    requires
        is_punctual(m),
        n <= plain_stream(m.flow.out).len(),
    ensures
        plain_stream(m.flow.out).count(Rule::LatePcr, n) == 0,
    decreases n,
{
    if n > 0 {
        lemma_clocks_kept(m, n - 1);
        lemma_not_late(m, n - 1);
    }
}

/// The output of a punctual multiplexer conforms: a validation finds no rule
/// broken and every packet parsed. The one exception is the countdown of a frame
/// of one packet that is spliced while an earlier splicing point is still being
/// counted.
pub proof fn lemma_output_conforms(m: MuxView, r: TsValidationReport)
    requires
        is_punctual(m),
        m.flow.out.len() > 0,
        detected_layout(m.flow.out) matches Some(layout) ==> r.describes(
            TsStream { layout, bytes: m.flow.out },
        ),
        forall|i: int|
            0 <= i < plain_stream(m.flow.out).len() ==> !(#[trigger] splices_again(
                plain_stream(m.flow.out),
                i,
            )),
    ensures
        r.violations.all_zero(),
        r.unparseable_packets == 0,
{
    lemma_report_of_output(m, r);
    assert(is_stream(m.flow.out)) by {
        reveal(sound);
        reveal(orderly);
    }
    lemma_framing_found(m.flow.out);
    lemma_clocks_kept(m, plain_stream(m.flow.out).len() as int);
}

/// Any call keeps the output a stream of packets.
pub proof fn lemma_call_sound(m: MuxView, c: Call)
    requires
        is_sound(m),
    ensures
        is_sound(called(m, c).mux),
        called(m, c).mux.plan == m.plan,
{
    match c {
        Call::Rate(rate) => {
            lemma_settings_sound(m, if rate is Some { rate->0 } else { 0 });
        },
        Call::Interval(_) => {},
        Call::Header => {
            lemma_tables_written_sound(m);
            assert(called(m, c).mux.flow == m.tables_written().flow);
        },
        Call::Frame(pkt) => {
            lemma_packet_written_sound(m, pkt);
        },
        Call::Splice(index, spec) => {
            lemma_signals_sound(m, index, spec, 0);
        },
        Call::Break(number) => {
            let none = SpliceSpec { seamless: None, post_splice_packets: 0 };
            lemma_signals_sound(m, 0, none, number);
        },
        Call::Trailer => {
            lemma_trailer_written_sound(m);
        },
        Call::Take => {},
    }
}

/// A session keeps the output a stream of packets.
pub proof fn lemma_session_sound(m: MuxView, cs: Seq<Call>)
    requires
        is_sound(m),
    ensures
        is_sound(played(m, cs, false).mux),
        played(m, cs, false).mux.plan == m.plan,
    decreases cs.len(),
{
    if cs.len() > 0 {
        lemma_session_sound(m, cs.drop_last());
        lemma_call_sound(played(m, cs.drop_last(), false).mux, cs.last());
    }
}

/// None of the calls `cs` paces the output or brings a timestamp that goes back
/// behind the clock of its stream.
pub open spec fn all_in_time(m: MuxView, cs: Seq<Call>) -> bool
    decreases cs.len(),
{
    cs.len() == 0 || (all_in_time(m, cs.drop_last()) && is_in_time(
        played(m, cs.drop_last(), false).mux,
        cs.last(),
    ))
}

/// A session without pacing whose timestamps do not go back, but for breaks that
/// are signalled, stays punctual.
pub proof fn lemma_session_punctual(m: MuxView, cs: Seq<Call>)
    requires
        is_punctual(m),
        all_in_time(m, cs),
    ensures
        is_punctual(played(m, cs, false).mux),
        played(m, cs, false).mux.plan == m.plan,
    decreases cs.len(),
{
    if cs.len() > 0 {
        let head = cs.drop_last();
        lemma_session_punctual(m, head);
        lemma_call_punctual(played(m, head, false).mux, cs.last());
        lemma_call_sound(played(m, head, false).mux, cs.last());
    }
}

/// The latest PTS, less its guard, of the frames of program `p` among the calls
/// `cs` since the last break of its time base.
pub open spec fn latest(plan: PlanView, cs: Seq<Call>, p: int) -> Option<i64>
    decreases cs.len(),
{
    if cs.len() == 0 {
        None
    } else {
        let before = latest(plan, cs.drop_last(), p);
        match cs.last() {
            Call::Break(number) => if program_for(plan, number, 0) == Some(p) {
                None
            } else {
                before
            },
            Call::Frame(pkt) => match (track_for_index(plan, pkt.stream_index, 0), pkt.pts) {
                (Some(t), Some(x)) => if plan.tracks[t].program != p {
                    before
                } else {
                    match before {
                        Some(y) if y > guarded(x) => before,
                        _ => Some(guarded(x)),
                    }
                },
                _ => before,
            },
            _ => before,
        }
    }
}

/// The output is not paced, and the timestamps do not go back: no frame on a stream
/// that carries its program's clock has a PTS before that of an earlier frame of
/// the program on the same time base.
pub open spec fn runs_forward(plan: PlanView, cs: Seq<Call>) -> bool
    decreases cs.len(),
{
    cs.len() == 0 || (runs_forward(plan, cs.drop_last()) && match cs.last() {
        Call::Rate(rate) => rate is None,
        Call::Frame(pkt) => match (track_for_index(plan, pkt.stream_index, 0), pkt.pts) {
            (Some(t), Some(x)) => is_clocked(plan, t) ==> (latest(
                plan,
                cs.drop_last(),
                plan.tracks[t].program as int,
            ) matches Some(y) ==> y <= guarded(x)),
            _ => true,
        },
        _ => true,
    })
}

/// No clock is ahead of the frames of its program.
spec fn none_ahead(m: MuxView, cs: Seq<Call>) -> bool {
    forall|p: int|
        0 <= p < m.plan.programs.len() ==> ((#[trigger] m.flow.programs[p]).last_pcr matches Some(
            l,
        ) ==> (latest(m.plan, cs, p) matches Some(y) && l <= y))
}

proof fn lemma_none_ahead(m: MuxView, cs: Seq<Call>)
    requires
        cs.len() > 0,
        is_punctual(m),
        is_in_time(m, cs.last()),
        none_ahead(m, cs.drop_last()),
    ensures
        none_ahead(called(m, cs.last()).mux, cs),
{
    let o = called(m, cs.last()).mux;
    let n = m.plan.tables.len() as int;
    let before = cs.drop_last();
    lemma_call_sound(m, cs.last());
    lemma_tables_programs(m.flow, m.plan, n);
    assert(m.flow.programs.len() == m.plan.programs.len()) by {
        reveal(sound);
        reveal(orderly);
    }
    assert forall|p: int| 0 <= p < o.plan.programs.len() implies ((
    #[trigger] o.flow.programs[p]).last_pcr matches Some(l) ==> (latest(
        o.plan,
        cs,
        p,
    ) matches Some(y) && l <= y)) by {
        assert(m.flow.programs[p].last_pcr matches Some(l) ==> (latest(
            m.plan,
            before,
            p,
        ) matches Some(y) && l <= y));
        match cs.last() {
            Call::Frame(pkt) => match track_for_index(m.plan, pkt.stream_index, 0) {
                Some(t) if m.header_written => {
                    lemma_track_in_range(m.plan, pkt.stream_index, 0);
                    let a = match pkt.pts {
                        Some(x) => m.tables_repeated(x),
                        None => m,
                    };
                    assert(a.flow.programs == m.flow.programs);
                    lemma_tables_on_time(m.flow, m.plan, n);
                    lemma_tables_written_sound(m);
                    lemma_sent_on_time(a.flow, m.plan, t, pkt);
                    assert(a.flow.delivered(m.plan, t, pkt) == a.flow.sent(
                        m.plan,
                        t,
                        pkt,
                        false,
                    ));
                    assert(moves_on(
                        m.flow.programs,
                        o.flow.programs,
                        m.plan.tracks[t].program as int,
                        pkt.pts,
                    ));
                },
                _ => {},
            },
            Call::Break(number) => {
                if program_for(m.plan, number, 0) is Some {
                    lemma_program_in_range(m.plan, number, 0);
                }
            },
            _ => {},
        }
    }
}

/// Timestamps that do not go back are never behind a clock.
pub proof fn lemma_forward_in_time(plan: PlanView, cs: Seq<Call>)
    requires
        homed(plan),
        runs_forward(plan, cs),
    ensures
        all_in_time(MuxView::fresh(plan), cs),
{
    lemma_forward_kept(plan, cs);
}

proof fn lemma_forward_kept(plan: PlanView, cs: Seq<Call>)
    requires
        homed(plan),
        runs_forward(plan, cs),
    ensures
        all_in_time(MuxView::fresh(plan), cs),
        none_ahead(played(MuxView::fresh(plan), cs, false).mux, cs),
    decreases cs.len(),
{
    let m = MuxView::fresh(plan);
    lemma_fresh_punctual(plan);
    if cs.len() > 0 {
        let head = cs.drop_last();
        lemma_forward_kept(plan, head);
        lemma_session_punctual(m, head);
        let a = played(m, head, false).mux;
        assert(is_in_time(a, cs.last())) by {
            match cs.last() {
                Call::Frame(pkt) => match track_for_index(plan, pkt.stream_index, 0) {
                    Some(t) => {
                        lemma_track_in_range(plan, pkt.stream_index, 0);
                        assert(plan.tracks[t].program < plan.programs.len());
                        let _ = a.flow.programs[plan.tracks[t].program as int];
                    },
                    None => {},
                },
                _ => {},
            }
        }
        lemma_none_ahead(a, cs);
    }
}

/// What a validation reports of everything that a session wrote, what was taken
/// out on the way and what is left, joined: as if nothing had been taken out.
pub proof fn lemma_session_reported(m: MuxView, cs: Seq<Call>, r: TsValidationReport)
    requires
        is_sound(m),
        ({
            let a = played(m, cs, true);
            let out = a.taken + a.mux.flow.out;
            &&& out.len() > 0
            &&& detected_layout(out) matches Some(layout) ==> r.describes(
                TsStream { layout, bytes: out },
            )
        }),
    ensures
        ({
            let a = played(m, cs, true);
            let s = plain_stream(a.taken + a.mux.flow.out);
            &&& r.layout == Some(TsPacketLayout::STANDARD)
            &&& r.packets == s.bytes.len() / 188
            &&& r.unparseable_packets == 0
            &&& r.violations.reserved_afc == 0
            &&& r.violations.bad_af_length == 0
            &&& r.violations.opcr_without_pcr == 0
            &&& r.violations.seamless_splice_without_splicing_point == 0
            &&& r.violations.transport_error_packets == 0
            &&& owned(m.plan) ==> r.violations.continuity_errors == 0
            &&& homed(m.plan) ==> {
                &&& r.violations.bad_psi_sections == 0
                &&& r.violations.rai_without_pcr_on_pcr_pid == 0
                &&& r.violations.nonzero_splice_type_on_audio == 0
                &&& r.violations.seamless_splice_run_broken == 0
                &&& (forall|i: int| 0 <= i < s.len() ==> !(#[trigger] splices_again(s, i)))
                    ==> r.violations.splice_countdown_inconsistent == 0
            }
        }),
{
    lemma_joined_output(m, cs);
    lemma_session_sound(m, cs);
    lemma_report_of_output(played(m, cs, false).mux, r);
}

/// Everything that a session without pacing wrote conforms, what was taken out on
/// the way and what is left, joined, where everything is where it belongs and no
/// timestamp goes back but after a break that is signalled. The one exception is
/// the countdown of a frame of one packet that is spliced while an earlier
/// splicing point is still being counted.
pub proof fn lemma_session_conforms(m: MuxView, cs: Seq<Call>, r: TsValidationReport)
    requires
        is_punctual(m),
        all_in_time(m, cs),
        ({
            let a = played(m, cs, true);
            let out = a.taken + a.mux.flow.out;
            &&& out.len() > 0
            &&& detected_layout(out) matches Some(layout) ==> r.describes(
                TsStream { layout, bytes: out },
            )
            &&& forall|i: int|
                0 <= i < plain_stream(out).len() ==> !(#[trigger] splices_again(
                    plain_stream(out),
                    i,
                ))
        }),
    ensures
        r.violations.all_zero(),
        r.unparseable_packets == 0,
{
    lemma_joined_output(m, cs);
    lemma_session_punctual(m, cs);
    lemma_output_conforms(played(m, cs, false).mux, r);
}

/// A new multiplexer whose layout has everything where it belongs: whatever calls
/// are made and however often the output is taken out, everything written, joined,
/// conforms, as long as the output is not paced and the timestamps do not go back
/// but after a break that is signalled. The one exception is the countdown of a
/// frame of one packet that is spliced while an earlier splicing point is still
/// being counted.
pub proof fn lemma_new_session_conforms(plan: PlanView, cs: Seq<Call>, r: TsValidationReport)
    requires
        homed(plan),
        runs_forward(plan, cs),
        ({
            let a = played(MuxView::fresh(plan), cs, true);
            let out = a.taken + a.mux.flow.out;
            &&& out.len() > 0
            &&& detected_layout(out) matches Some(layout) ==> r.describes(
                TsStream { layout, bytes: out },
            )
            &&& forall|i: int|
                0 <= i < plain_stream(out).len() ==> !(#[trigger] splices_again(
                    plain_stream(out),
                    i,
                ))
        }),
    ensures
        r.violations.all_zero(),
        r.unparseable_packets == 0,
{
    lemma_fresh_punctual(plan);
    lemma_forward_in_time(plan, cs);
    lemma_session_conforms(MuxView::fresh(plan), cs, r);
}

} // verus!
