//! A multiplexer that is paced from the start writes every clock reference on one
//! byte clock, as long as no new time base is announced.
use vstd::prelude::*;

use crate::muxer::byte_clock::{comes_far, has_clock_at, lemma_paced_clocks_kept};
use crate::muxer::clock_gaps::clock_interval_bytes;
use crate::muxer::clock_lag::{
    frames_fit, lemma_fresh_spaced, lemma_session_spaced, lemma_spaced_not_far, quiet_run, runs_fit,
    spaced, Spacing,
};
use crate::muxer::conformance::{
    lemma_framing_found, lemma_has_owner, lemma_packet_at, lemma_packet_in_turn,
    lemma_report_of_output, plain_stream, splices_again,
};
use crate::muxer::deliver::{
    decode_time, first_due, held_count, held_due, lead_of, lemma_first_due, riders_for, ticks_27,
};
use crate::muxer::config::SpliceSpec;
use crate::muxer::draining::{called, lemma_joined_output, played, Call};
use crate::muxer::flow::{FlowView, PacketView, PlanView, TICKS_PER_BYTE_RATE};
use crate::muxer::frame::Riders;
use crate::muxer::frame_read_back::{
    frame_units, gains, lemma_frame_parses, lemma_frame_put_read_back,
};
use crate::muxer::laws::{lemma_tables_elsewhere, table_pids_fit, tables_count};
use crate::muxer::mux::{track_for_index, MuxView};
use crate::muxer::packets::null_packet;
use crate::muxer::pes::{frame_error, frame_packets};
use crate::muxer::plan_laws::laid_out;
use crate::muxer::read_back::{carries_field, lemma_step_read_back, packets_on, stepped};
use crate::muxer::session_conformance::lemma_call_sound;
use crate::muxer::settling::{homed, settled};
use crate::muxer::steady::{
    goes_on, lemma_clocks_steady, lemma_goes_on, lemma_idled_steady, lemma_sent_steady,
    lemma_tables_steady, no_stream, steady,
};
use crate::muxer::tidy::all_mute;
use crate::muxer::well_formed::{
    is_sound, is_stream, lemma_clock_started_sound, lemma_delivered_sound, lemma_flushed_sound,
    lemma_held_sound, lemma_fresh_sound, lemma_released_sound, lemma_settings_sound,
    lemma_stream_len, lemma_tables_sound, lemma_track_in_range, orderly, sound,
};
use crate::packet::layout::detected_layout;
use crate::packet::parse::TsPacketView;
use crate::pes::reassemble::Reassembly;
use crate::validate::pcr::MAX_PCR_INTERVAL_27MHZ;
use crate::validate::report::TsValidationReport;
use crate::validate::stream::{Rule, TsStream};

verus! {

/// The output of `g` starts with that of `f`, and its byte clock is the same.
#[verifier::opaque]
pub open spec fn keeps_clock(f: FlowView, g: FlowView) -> bool {
    &&& f.pacer is Some
    &&& g.pacer is Some
    &&& g.pacer->0.rate == f.pacer->0.rate
    &&& g.pacer->0.anchor == f.pacer->0.anchor
    &&& g.pacer->0.held.len() == f.pacer->0.held.len()
    &&& g.tracks.len() == f.tracks.len()
    &&& goes_on(f, g)
}

/// Every stream has its queue, and the byte clock runs.
pub open spec fn is_running(f: FlowView) -> bool {
    f.anchored() && f.pacer->0.held.len() == f.tracks.len()
}

pub(crate) proof fn lemma_keeps_on(f: FlowView, g: FlowView, h: FlowView)
    requires
        keeps_clock(f, g),
        keeps_clock(g, h),
    ensures
        keeps_clock(f, h),
{
    reveal(keeps_clock);
    lemma_goes_on(f, g, h);
}

proof fn lemma_keeps_same(f: FlowView)
    requires
        f.pacer is Some,
    ensures
        keeps_clock(f, f),
{
    reveal(keeps_clock);
}

pub(crate) proof fn lemma_steady_keeps(f: FlowView, g: FlowView, j: int)
    requires
        f.pacer is Some,
        steady(f, g, j),
    ensures
        keeps_clock(f, g),
{
    reveal(keeps_clock);
    reveal(steady);
}

pub(crate) proof fn lemma_keeps_running(f: FlowView, g: FlowView)
    requires
        keeps_clock(f, g),
        is_running(f),
    ensures
        is_running(g),
{
    reveal(keeps_clock);
}

/// The clock references that are due, and a frame.
proof fn lemma_clocks_sent_keep(f: FlowView, plan: PlanView, t: int, pkt: PacketView)
    requires
        is_running(f),
        0 <= t < f.tracks.len(),
    ensures
        keeps_clock(
            f,
            f.clocks_put(plan, plan.programs.len() as int).sent(plan, t, pkt, true).flow,
        ),
{
    let n = plan.programs.len() as int;
    let a = f.clocks_put(plan, n);
    lemma_clocks_steady(f, plan, n);
    lemma_steady_keeps(f, a, no_stream());
    lemma_keeps_running(f, a);
    assert(a.tracks.len() == f.tracks.len()) by {
        reveal(keeps_clock);
    }
    lemma_sent_steady(a, plan, t, pkt, true);
    let g = a.sent(plan, t, pkt, true).flow;
    lemma_steady_keeps(a, g, t);
    lemma_keeps_on(f, a, g);
}

proof fn lemma_held_keeps(f: FlowView, plan: PlanView, t: int, pkt: PacketView)
    requires
        is_running(f),
        0 <= t < f.tracks.len(),
    ensures
        keeps_clock(f, f.delivered_held(plan, t, pkt).flow),
{
    match decode_time(pkt) {
        Some(d) => {
            let target = ticks_27(d) - lead_of(plan.tracks[t].is_video);
            assert(f.clock_started(target) == f);
            let b = f.idled(plan, target, f.waits(target));
            lemma_idled_steady(f, plan, target, f.waits(target));
            lemma_steady_keeps(f, b, no_stream());
            lemma_keeps_running(f, b);
            assert(b.tracks.len() == f.tracks.len()) by {
                reveal(keeps_clock);
            }
            lemma_clocks_sent_keep(b, plan, t, pkt);
            let g = b.clocks_put(plan, plan.programs.len() as int).sent(plan, t, pkt, true).flow;
            lemma_keeps_on(f, b, g);
        },
        None => {
            lemma_sent_steady(f, plan, t, pkt, f.anchored());
            lemma_steady_keeps(f, f.sent(plan, t, pkt, f.anchored()).flow, t);
        },
    }
}

proof fn lemma_popped_keeps(f: FlowView, t: int)
    requires
        is_running(f),
        0 <= t < f.tracks.len(),
    ensures
        keeps_clock(f, f.popped(t)),
{
    reveal(keeps_clock);
}

pub(crate) proof fn lemma_flushed_keeps(f: FlowView, plan: PlanView, horizon: int, fuel: nat)
    requires
        is_running(f),
    ensures
        keeps_clock(f, f.flushed(plan, horizon, fuel).flow),
    decreases fuel,
{
    let held = f.pacer->0.held;
    lemma_first_due(held, held.len() as int);
    lemma_keeps_same(f);
    match first_due(held, held.len() as int) {
        Some(t) if fuel > 0 && held_due(held[t][0]) <= horizon => {
            let a = f.popped(t);
            lemma_popped_keeps(f, t);
            lemma_keeps_running(f, a);
            lemma_held_keeps(a, plan, t, held[t][0]);
            let o = a.delivered_held(plan, t, held[t][0]);
            lemma_keeps_on(f, a, o.flow);
            if o.error is None {
                lemma_keeps_running(f, o.flow);
                lemma_flushed_keeps(o.flow, plan, horizon, (fuel - 1) as nat);
                lemma_keeps_on(
                    f,
                    o.flow,
                    o.flow.flushed(plan, horizon, (fuel - 1) as nat).flow,
                );
            }
        },
        _ => {},
    }
}

proof fn lemma_waited_keeps(f: FlowView, plan: PlanView, target: int, fuel: nat)
    requires
        is_running(f),
    ensures
        keeps_clock(f, f.waited(plan, target, fuel).flow),
    decreases fuel,
{
    lemma_keeps_same(f);
    if fuel > 0 && f.now() < target {
        lemma_flushed_keeps(f, plan, f.now(), held_count(f.pacer->0.held));
        let o = f.flushed_all(plan, f.now());
        if o.error is None && o.flow.now() < target {
            let n = plan.programs.len() as int;
            lemma_keeps_running(f, o.flow);
            let a = o.flow.clocks_put(plan, n);
            lemma_clocks_steady(o.flow, plan, n);
            lemma_steady_keeps(o.flow, a, no_stream());
            lemma_keeps_on(f, o.flow, a);
            let b = a.put(null_packet());
            assert(keeps_clock(a, b)) by {
                reveal(keeps_clock);
            }
            lemma_keeps_on(f, a, b);
            lemma_keeps_running(f, b);
            lemma_waited_keeps(b, plan, target, (fuel - 1) as nat);
            lemma_keeps_on(f, b, b.waited(plan, target, (fuel - 1) as nat).flow);
        }
    }
}

proof fn lemma_delivered_keeps(f: FlowView, plan: PlanView, t: int, pkt: PacketView)
    requires
        is_running(f),
        0 <= t < f.tracks.len(),
    ensures
        keeps_clock(f, f.delivered(plan, t, pkt).flow),
{
    match decode_time(pkt) {
        Some(d) => {
            let target = ticks_27(d) - lead_of(plan.tracks[t].is_video);
            assert(f.clock_started(target) == f);
            lemma_waited_keeps(f, plan, target, f.waits(target));
            let o = f.waited(plan, target, f.waits(target));
            lemma_keeps_running(f, o.flow);
            if o.error is None && o.flow.now() <= ticks_27(d) {
                let horizon = o.flow.now() + o.flow.wire_time(pkt.data.len() as int);
                lemma_flushed_keeps(o.flow, plan, horizon, held_count(o.flow.pacer->0.held));
                let q = o.flow.flushed_all(plan, horizon);
                lemma_keeps_on(f, o.flow, q.flow);
                lemma_keeps_running(f, q.flow);
                assert(q.flow.tracks.len() == f.tracks.len()) by {
                    reveal(keeps_clock);
                }
                lemma_clocks_sent_keep(q.flow, plan, t, pkt);
                let g = q.flow.clocks_put(plan, plan.programs.len() as int).sent(
                    plan,
                    t,
                    pkt,
                    true,
                ).flow;
                lemma_keeps_on(f, q.flow, g);
            }
        },
        None => {
            lemma_sent_steady(f, plan, t, pkt, f.anchored());
            lemma_steady_keeps(f, f.sent(plan, t, pkt, f.anchored()).flow, t);
        },
    }
}

/// The packets `ps` carry no clock reference.
#[verifier::opaque]
pub open spec fn are_silent(ps: Seq<TsPacketView>) -> bool {
    forall|i: int|
        0 <= i < ps.len() ==> ((#[trigger] ps[i]).adaptation_field matches Some(af) ==> af.pcr_base
            is None)
}

proof fn lemma_silent_more(ps: Seq<TsPacketView>, p: TsPacketView)
    requires
        are_silent(ps),
        p.adaptation_field matches Some(af) ==> af.pcr_base is None,
    ensures
        are_silent(ps.push(p)),
{
    reveal(are_silent);
    assert forall|i: int| 0 <= i < ps.push(p).len() implies ((
    #[trigger] ps.push(p)[i]).adaptation_field matches Some(af) ==> af.pcr_base is None) by {
        if i < ps.len() {
            assert(ps.push(p)[i] == ps[i]);
        }
    }
}

/// The output is paced at `rate`. No clock reference was written before the byte
/// clock started.
#[verifier::opaque]
pub open spec fn on_one_clock(f: FlowView, plan: PlanView, rate: int) -> bool {
    &&& f.pacer is Some
    &&& f.pacer->0.rate == rate
    &&& f.pacer->0.held.len() == f.tracks.len()
    &&& if f.anchored() {
        let start = (f.pacer->0.anchor->0).0;
        &&& start <= f.pos()
        &&& forall|i: int|
            0 <= i < plain_stream(f.out).len() && #[trigger] has_clock_at(plain_stream(f.out), i)
                ==> f.drained + 188 * i >= start
    } else {
        forall|t: int|
            0 <= t < plan.tracks.len() ==> are_silent(
                packets_on(f.out, (#[trigger] plan.tracks[t]).pid),
            )
    }
}

/// What goes on with the clock running is on the same clock.
proof fn lemma_keeps_one_clock(f: FlowView, g: FlowView, plan: PlanView, rate: int)
    requires
        on_one_clock(f, plan, rate),
        f.anchored(),
        keeps_clock(f, g),
        is_stream(f.out),
        is_stream(g.out),
    ensures
        on_one_clock(g, plan, rate),
        g.anchored(),
{
    reveal(on_one_clock);
    reveal(keeps_clock);
    let a = plain_stream(f.out);
    let b = plain_stream(g.out);
    let start = (f.pacer->0.anchor->0).0;
    lemma_stream_len(f.out);
    assert forall|i: int| 0 <= i < b.len() && #[trigger] has_clock_at(b, i) implies g.drained + 188
        * i >= start by {
        lemma_packet_at(f.out, i);
        lemma_packet_at(g.out, i);
        if g.drained + 188 * i < start {
            let n = f.out.len() as int;
            assert(i < n / 188);
            assert(g.out.subrange(188 * i, 188 * i + 188) =~= g.out.take(n).subrange(
                188 * i,
                188 * i + 188,
            ));
            assert(b.raw(i) == a.raw(i));
            assert(has_clock_at(a, i));
        }
    }
}

/// While the byte clock has not started, there is no clock reference at all.
proof fn lemma_silent_everywhere(f: FlowView, plan: PlanView, rate: int, i: int)
    requires
        homed(plan),
        plan.wf(),
        sound(f, plan),
        on_one_clock(f, plan, rate),
        !f.anchored(),
        0 <= i < plain_stream(f.out).len(),
    ensures
        !has_clock_at(plain_stream(f.out), i),
{
    let s = plain_stream(f.out);
    let m = MuxView {
        plan,
        flow: f,
        psi_repetition: None,
        last_psi: None,
        header_written: true,
    };
    assert(is_stream(f.out)) by {
        reveal(sound);
        reveal(orderly);
    }
    if s.counts(i) {
        let q = s.packet(i).pid;
        lemma_has_owner(m, i);
        lemma_packet_in_turn(f.out, i);
        let k = packets_on(f.out.take(188 * i), q).len() as int;
        if exists|t: int| 0 <= t < plan.tracks.len() && (#[trigger] plan.tracks[t]).pid == q {
            let t = choose|t: int|
                0 <= t < plan.tracks.len() && (#[trigger] plan.tracks[t]).pid == q;
            assert(are_silent(packets_on(f.out, plan.tracks[t].pid))) by {
                reveal(on_one_clock);
            }
            reveal(are_silent);
            assert(packets_on(f.out, q)[k] == s.packet(i));
        } else {
            let x = choose|x: int|
                0 <= x < plan.tables.len() && (#[trigger] plan.tables[x]).pid == q;
            assert(all_mute(packets_on(f.out, plan.tables[x].pid))) by {
                reveal(sound);
                reveal(settled);
            }
            reveal(all_mute);
            assert(packets_on(f.out, q)[k] == s.packet(i));
        }
    }
}

/// The byte clock starts.
proof fn lemma_started_one_clock(f: FlowView, plan: PlanView, rate: int, time: int)
    requires
        homed(plan),
        plan.wf(),
        sound(f, plan),
        on_one_clock(f, plan, rate),
    ensures
        on_one_clock(f.clock_started(time), plan, rate),
        f.clock_started(time).anchored(),
        sound(f.clock_started(time), plan),
{
    assert(f.pacer is Some) by {
        reveal(on_one_clock);
    }
    lemma_clock_started_sound(f, plan, time);
    if !f.anchored() {
        assert forall|i: int| 0 <= i < plain_stream(f.out).len() implies !(#[trigger] has_clock_at(
            plain_stream(f.out),
            i,
        )) by {
            lemma_silent_everywhere(f, plan, rate, i);
        }
    }
    reveal(on_one_clock);
}

/// The tables carry no clock reference.
proof fn lemma_tables_one_clock(f: FlowView, plan: PlanView, rate: int)
    requires
        homed(plan),
        plan.wf(),
        sound(f, plan),
        on_one_clock(f, plan, rate),
    ensures
        on_one_clock(f.tables_put(plan, plan.tables.len() as int), plan, rate),
{
    let n = plan.tables.len() as int;
    let g = f.tables_put(plan, n);
    lemma_tables_sound(f, plan, n);
    lemma_tables_steady(f, plan, n);
    assert(f.pacer is Some) by {
        reveal(on_one_clock);
    }
    lemma_steady_keeps(f, g, no_stream());
    assert(is_stream(f.out) && is_stream(g.out)) by {
        reveal(sound);
        reveal(orderly);
    }
    if f.anchored() {
        lemma_keeps_one_clock(f, g, plan, rate);
    } else {
        assert forall|t: int| 0 <= t < plan.tracks.len() implies are_silent(
            packets_on(g.out, (#[trigger] plan.tracks[t]).pid),
        ) by {
            let q = plan.tracks[t].pid;
            assert(are_silent(packets_on(f.out, q))) by {
                reveal(on_one_clock);
            }
            assert(table_pids_fit(plan) && q < 0x1FFF && forall|i: int|
                0 <= i < n ==> (#[trigger] plan.tables[i]).pid != q) by {
                reveal(laid_out);
            }
            assert(tables_count(f, plan)) by {
                reveal(sound);
                reveal(orderly);
            }
            lemma_tables_elsewhere(f, plan, n, q);
        }
        reveal(on_one_clock);
        reveal(keeps_clock);
    }
}

/// The rest of a PES packet without a clock reference.
proof fn lemma_rest_silent(
    f: FlowView,
    plan: PlanView,
    t: int,
    riders: Riders,
    start: bool,
    run: Option<int>,
    rest: Seq<u8>,
)
    requires
        0 <= t < plan.tracks.len(),
        f.tracks.len() == plan.tracks.len(),
        f.tracks[t].cc < 16,
        plan.tracks[t].pid < 0x1FFF,
        riders.wf(),
        riders.pcr is None,
        are_silent(packets_on(f.out, plan.tracks[t].pid)),
    ensures
        ({
            let g = f.rest_put(plan, t, riders, start, run, rest);
            &&& are_silent(packets_on(g.out, plan.tracks[t].pid))
            &&& g.tracks.len() == f.tracks.len()
            &&& g.tracks[t].cc < 16
        }),
    decreases rest.len(),
{
    if rest.len() > 0 {
        let a = f.paced_for(plan, t);
        let left = rest.len() as int;
        let p = lemma_step_read_back(f, plan, t, riders, start, run, rest);
        let field = a.packet_field(plan, t, riders, start, run, left);
        assert(carries_field(p, field) && field.pcr is None);
        lemma_silent_more(packets_on(f.out, plan.tracks[t].pid), p);
        lemma_rest_silent(
            stepped(f, plan, t, riders, start, run, rest),
            plan,
            t,
            riders,
            false,
            a.run_after(plan, t, riders, start, run, left),
            rest.skip(p.payload.len() as int),
        );
    }
}

/// A frame without a clock reference.
proof fn lemma_frame_silent(
    f: FlowView,
    plan: PlanView,
    t: int,
    riders: Riders,
    packets: Seq<Seq<u8>>,
    n: int,
)
    requires
        0 <= t < plan.tracks.len(),
        f.tracks.len() == plan.tracks.len(),
        f.tracks[t].cc < 16,
        plan.tracks[t].pid < 0x1FFF,
        riders.wf(),
        riders.pcr is None,
        n <= packets.len(),
        are_silent(packets_on(f.out, plan.tracks[t].pid)),
    ensures
        ({
            let g = f.frame_put(plan, t, riders, packets, n);
            &&& are_silent(packets_on(g.out, plan.tracks[t].pid))
            &&& g.tracks.len() == f.tracks.len()
            &&& g.tracks[t].cc < 16
        }),
    decreases n,
{
    if n > 0 {
        lemma_frame_silent(f, plan, t, riders, packets, n - 1);
        let a = f.frame_put(plan, t, riders, packets, n - 1);
        let mine = riders_for(riders, n - 1, packets.len() - 1);
        let pes = packets[n - 1];
        match mine.splice {
            None => {
                lemma_rest_silent(a, plan, t, mine, true, None, pes);
            },
            Some(_) => {
                lemma_rest_silent(a.with_after_splice(t, None), plan, t, mine, true, None, pes);
            },
        }
    }
}

/// A frame without a timestamp, before the byte clock has started.
proof fn lemma_sent_silent(f: FlowView, plan: PlanView, rate: int, t: int, pkt: PacketView)
    requires
        homed(plan),
        plan.wf(),
        sound(f, plan),
        on_one_clock(f, plan, rate),
        !f.anchored(),
        pkt.pts is None,
        0 <= t < plan.tracks.len(),
    ensures
        on_one_clock(f.sent(plan, t, pkt, false).flow, plan, rate),
{
    let g = f.sent(plan, t, pkt, false).flow;
    assert(f.pacer is Some) by {
        reveal(on_one_clock);
    }
    assert(f.tracks.len() == plan.tracks.len() && f.tracks[t].wf()) by {
        reveal(sound);
        reveal(orderly);
    }
    lemma_sent_steady(f, plan, t, pkt, false);
    lemma_steady_keeps(f, g, t);
    assert forall|j: int| 0 <= j < plan.tracks.len() implies are_silent(
        packets_on(g.out, (#[trigger] plan.tracks[j]).pid),
    ) by {
        reveal(FlowView::sent);
        let track = plan.tracks[t];
        let own = track.pid == plan.programs[track.program as int].pcr_pid;
        assert(are_silent(packets_on(f.out, plan.tracks[j].pid)) && are_silent(
            packets_on(f.out, track.pid),
        )) by {
            reveal(on_one_clock);
        }
        assert(track.pid < 0x1FFF && plan.tracks[j].pid < 0x1FFF && (j != t ==> plan.tracks[j].pid
            != track.pid)) by {
            reveal(laid_out);
        }
        if frame_error(track.stream_id, pkt.pts, pkt.dts, pkt.data.len() as int) is None {
            let packets = frame_packets(track.stream_id, pkt.pts, pkt.dts, pkt.data);
            let n = packets.len() as int;
            let riders = Riders {
                pcr: None,
                random_access: pkt.keyframe && !own,
                splice: f.tracks[t].splice,
            };
            let d = f.splice_taken(t);
            assert(g == d.frame_put(plan, t, riders, packets, n));
            lemma_frame_silent(d, plan, t, riders, packets, n);
            let units = frame_units(
                track.stream_id,
                pkt.pts,
                pkt.dts,
                pkt.data,
                riders.random_access,
            );
            lemma_frame_parses(track.stream_id, pkt.pts, pkt.dts, pkt.data, riders.random_access);
            let _ = lemma_frame_put_read_back(
                d,
                plan,
                t,
                riders,
                packets,
                units,
                n,
                Reassembly::empty(),
            );
            if j != t {
                assert(packets_on(g.out, plan.tracks[j].pid) == packets_on(
                    d.out,
                    plan.tracks[j].pid,
                )) by {
                    reveal(gains);
                }
            }
        }
    }
    reveal(on_one_clock);
    reveal(keeps_clock);
}

/// Delivering a frame stays on the clock.
proof fn lemma_delivered_one_clock(
    f: FlowView,
    plan: PlanView,
    rate: int,
    t: int,
    pkt: PacketView,
)
    requires
        homed(plan),
        plan.wf(),
        sound(f, plan),
        on_one_clock(f, plan, rate),
        0 <= t < plan.tracks.len(),
    ensures
        on_one_clock(f.delivered(plan, t, pkt).flow, plan, rate),
{
    let g = f.delivered(plan, t, pkt).flow;
    lemma_delivered_sound(f, plan, t, pkt);
    assert(f.pacer is Some) by {
        reveal(on_one_clock);
    }
    assert(f.tracks.len() == plan.tracks.len() && is_stream(f.out) && is_stream(g.out)) by {
        reveal(sound);
        reveal(orderly);
    }
    match decode_time(pkt) {
        Some(d) => {
            let target = ticks_27(d) - lead_of(plan.tracks[t].is_video);
            let a = f.clock_started(target);
            lemma_started_one_clock(f, plan, rate, target);
            assert(a.clock_started(target) == a);
            assert(a.delivered(plan, t, pkt) == f.delivered(plan, t, pkt));
            assert(is_running(a)) by {
                reveal(on_one_clock);
            }
            lemma_delivered_keeps(a, plan, t, pkt);
            lemma_keeps_one_clock(a, g, plan, rate);
        },
        None => {
            if f.anchored() {
                assert(is_running(f)) by {
                    reveal(on_one_clock);
                }
                lemma_delivered_keeps(f, plan, t, pkt);
                lemma_keeps_one_clock(f, g, plan, rate);
            } else {
                lemma_sent_silent(f, plan, rate, t, pkt);
            }
        },
    }
}

/// Delivering a held frame stays on the clock.
proof fn lemma_held_one_clock(f: FlowView, plan: PlanView, rate: int, t: int, pkt: PacketView)
    requires
        homed(plan),
        plan.wf(),
        sound(f, plan),
        on_one_clock(f, plan, rate),
        0 <= t < plan.tracks.len(),
    ensures
        on_one_clock(f.delivered_held(plan, t, pkt).flow, plan, rate),
{
    let g = f.delivered_held(plan, t, pkt).flow;
    lemma_held_sound(f, plan, t, pkt);
    assert(f.pacer is Some) by {
        reveal(on_one_clock);
    }
    assert(f.tracks.len() == plan.tracks.len() && is_stream(f.out) && is_stream(g.out)) by {
        reveal(sound);
        reveal(orderly);
    }
    match decode_time(pkt) {
        Some(d) => {
            let target = ticks_27(d) - lead_of(plan.tracks[t].is_video);
            let a = f.clock_started(target);
            lemma_started_one_clock(f, plan, rate, target);
            assert(a.clock_started(target) == a);
            assert(a.delivered_held(plan, t, pkt) == f.delivered_held(plan, t, pkt));
            assert(is_running(a)) by {
                reveal(on_one_clock);
            }
            lemma_held_keeps(a, plan, t, pkt);
            lemma_keeps_one_clock(a, g, plan, rate);
        },
        None => {
            if f.anchored() {
                assert(is_running(f)) by {
                    reveal(on_one_clock);
                }
                lemma_held_keeps(f, plan, t, pkt);
                lemma_keeps_one_clock(f, g, plan, rate);
            } else {
                lemma_sent_silent(f, plan, rate, t, pkt);
            }
        },
    }
}

/// Letting held frames go stays on the clock.
proof fn lemma_released_one_clock(f: FlowView, plan: PlanView, rate: int, fuel: nat)
    requires
        homed(plan),
        plan.wf(),
        sound(f, plan),
        on_one_clock(f, plan, rate),
    ensures
        on_one_clock(f.released(plan, fuel).flow, plan, rate),
    decreases fuel,
{
    let held = f.pacer->0.held;
    lemma_first_due(held, held.len() as int);
    match first_due(held, held.len() as int) {
        Some(t) if f.pacer is Some && fuel > 0 => {
            let a = f.popped(t);
            assert(on_one_clock(a, plan, rate)) by {
                reveal(on_one_clock);
            }
            assert(sound(a, plan) && held.len() == plan.tracks.len()) by {
                reveal(sound);
                reveal(orderly);
            }
            lemma_held_one_clock(a, plan, rate, t, held[t][0]);
            lemma_held_sound(a, plan, t, held[t][0]);
            let o = a.delivered_held(plan, t, held[t][0]);
            if o.error is None {
                lemma_released_one_clock(o.flow, plan, rate, (fuel - 1) as nat);
            }
        },
        _ => {},
    }
}

/// A frame that is held, and those that are due, stay on the clock.
proof fn lemma_queued_one_clock(
    f: FlowView,
    plan: PlanView,
    rate: int,
    t: int,
    pkt: PacketView,
)
    requires
        homed(plan),
        plan.wf(),
        sound(f, plan),
        on_one_clock(f, plan, rate),
        f.anchored(),
        0 <= t < plan.tracks.len(),
    ensures
        ({
            let held = f.holding(t, pkt);
            on_one_clock(held.flushed_all(plan, held.now()).flow, plan, rate)
        }),
{
    let held = f.holding(t, pkt);
    let n = held_count(held.pacer->0.held);
    assert(f.tracks.len() == plan.tracks.len() && sound(held, plan)) by {
        reveal(sound);
        reveal(orderly);
    }
    assert(on_one_clock(held, plan, rate) && is_running(held)) by {
        reveal(on_one_clock);
    }
    let g = held.flushed(plan, held.now(), n).flow;
    lemma_flushed_sound(held, plan, held.now(), n);
    lemma_flushed_keeps(held, plan, held.now(), n);
    assert(is_stream(held.out) && is_stream(g.out)) by {
        reveal(sound);
        reveal(orderly);
    }
    lemma_keeps_one_clock(held, g, plan, rate);
}

/// A frame stays on the clock, written or refused.
proof fn lemma_written_one_clock(m: MuxView, pkt: PacketView, rate: int)
    requires
        homed(m.plan),
        is_sound(m),
        on_one_clock(m.flow, m.plan, rate),
    ensures
        on_one_clock(m.packet_written(pkt).mux.flow, m.plan, rate),
{
    let plan = m.plan;
    match track_for_index(plan, pkt.stream_index, 0) {
        Some(t) if m.header_written => {
            lemma_track_in_range(plan, pkt.stream_index, 0);
            lemma_tables_one_clock(m.flow, plan, rate);
            lemma_tables_sound(m.flow, plan, plan.tables.len() as int);
            let a = match pkt.pts {
                Some(x) => m.tables_repeated(x),
                None => m,
            };
            assert(sound(a.flow, plan) && on_one_clock(a.flow, plan, rate));
            if a.flow.anchored() && !plan.tracks[t].is_video && pkt.pts is Some {
                lemma_queued_one_clock(a.flow, plan, rate, t, pkt);
            } else {
                lemma_delivered_one_clock(a.flow, plan, rate, t, pkt);
            }
        },
        _ => {},
    }
}

/// A splicing point that is asked for stays on the clock.
proof fn lemma_armed_one_clock(m: MuxView, index: u32, spec: SpliceSpec, rate: int)
    requires
        is_sound(m),
        on_one_clock(m.flow, m.plan, rate),
    ensures
        on_one_clock(m.splice_armed(index, spec).mux.flow, m.plan, rate),
{
    assert(m.flow.tracks.len() == m.plan.tracks.len()) by {
        reveal(sound);
        reveal(orderly);
    }
    lemma_track_in_range(m.plan, index, 0);
    reveal(on_one_clock);
}

/// Any call but a new rate or a break of the time base stays on the clock.
pub proof fn lemma_call_one_clock(m: MuxView, c: Call, rate: int)
    requires
        homed(m.plan),
        is_sound(m),
        on_one_clock(m.flow, m.plan, rate),
        !(c is Rate),
        !(c is Break),
    ensures
        on_one_clock(called(m, c).mux.flow, m.plan, rate),
{
    match c {
        Call::Frame(pkt) => {
            lemma_written_one_clock(m, pkt, rate);
        },
        Call::Header => {
            lemma_tables_one_clock(m.flow, m.plan, rate);
        },
        Call::Splice(index, spec) => {
            lemma_armed_one_clock(m, index, spec, rate);
        },
        Call::Trailer => {
            assert(m.flow.pacer is Some) by {
                reveal(on_one_clock);
            }
            let n = held_count(m.flow.pacer->0.held);
            lemma_released_one_clock(m.flow, m.plan, rate, n);
            lemma_released_sound(m.flow, m.plan, n);
            lemma_tables_one_clock(m.flow.released(m.plan, n).flow, m.plan, rate);
        },
        _ => {},
    }
}

/// None of the calls `cs` sets a rate or breaks the time base.
pub open spec fn keeps_to_one_clock(cs: Seq<Call>) -> bool {
    forall|i: int| 0 <= i < cs.len() ==> !((#[trigger] cs[i]) is Rate) && !(cs[i] is Break)
}

/// A session that is on one byte clock stays on it.
pub proof fn lemma_session_one_clock(m: MuxView, rate: int, cs: Seq<Call>)
    requires
        homed(m.plan),
        is_sound(m),
        on_one_clock(m.flow, m.plan, rate),
        keeps_to_one_clock(cs),
    ensures
        ({
            let o = played(m, cs, false).mux;
            &&& is_sound(o)
            &&& o.plan == m.plan
            &&& on_one_clock(o.flow, m.plan, rate)
        }),
    decreases cs.len(),
{
    if cs.len() > 0 {
        let head = cs.drop_last();
        assert forall|i: int| 0 <= i < head.len() implies !((#[trigger] head[i]) is Rate) && !(
        head[i] is Break) by {
            assert(head[i] == cs[i]);
        }
        assert(!(cs[cs.len() - 1] is Rate) && !(cs[cs.len() - 1] is Break));
        lemma_session_one_clock(m, rate, head);
        let a = played(m, head, false).mux;
        lemma_call_sound(a, cs.last());
        lemma_call_one_clock(a, cs.last(), rate);
    }
}

/// A new multiplexer that is paced is on one byte clock.
pub proof fn lemma_fresh_one_clock(plan: PlanView, rate: u64)
    requires
        homed(plan),
    ensures
        ({
            let m = MuxView::fresh(plan).rate_set(Some(rate));
            &&& is_sound(m)
            &&& on_one_clock(m.flow, plan, if rate == 0 { 1 } else { rate as int })
        }),
{
    let m = MuxView::fresh(plan).rate_set(Some(rate));
    assert(plan.wf()) by {
        reveal(laid_out);
    }
    lemma_fresh_sound(plan);
    lemma_settings_sound(MuxView::fresh(plan), rate);
    reveal(on_one_clock);
    assert forall|t: int| 0 <= t < plan.tracks.len() implies are_silent(
        packets_on(m.flow.out, (#[trigger] plan.tracks[t]).pid),
    ) by {
        reveal(packets_on);
        reveal(are_silent);
    }
}

/// Before the byte clock has started no clock reference is late.
proof fn lemma_silent_kept(m: MuxView, rate: int, n: int)
    requires
        homed(m.plan),
        is_sound(m),
        on_one_clock(m.flow, m.plan, rate),
        !m.flow.anchored(),
        n <= plain_stream(m.flow.out).len(),
    ensures
        plain_stream(m.flow.out).count(Rule::LatePcr, n) == 0,
    decreases n,
{
    if n > 0 {
        lemma_silent_kept(m, rate, n - 1);
        lemma_silent_everywhere(m.flow, m.plan, rate, n - 1);
    }
}

/// Everything that a paced session wrote conforms, what was taken out on the way and
/// what is left, joined, where everything is where it belongs, whatever calls are
/// made but for another rate or a break of the time base. It is owed where no frame
/// is too long: at the rate of the output 40 ms of bytes, two clock references a
/// program, the longest frame, and what is written in a row without a look at the
/// clock, tables and frames without a decode time, take at most 0,1 s together. The
/// one exception is the countdown of a frame of one packet that is spliced while an
/// earlier splicing point is still being counted.
pub proof fn lemma_paced_session_conforms(
    m: MuxView,
    cs: Seq<Call>,
    s: Spacing,
    most: int,
    r: TsValidationReport,
)
    requires
        homed(m.plan),
        is_sound(m),
        on_one_clock(m.flow, m.plan, s.rate),
        spaced(m.flow, m.plan, s, s.fresh(m.plan) + s.room),
        s.rate > 0,
        keeps_to_one_clock(cs),
        frames_fit(m.plan, s.rate, cs, s.room),
        runs_fit(m, cs, most),
        most >= 0,
        s.room >= 188,
        s.fresh(m.plan) + s.room + most + 188 * m.plan.programs.len() <= s.limit,
        s.limit * TICKS_PER_BYTE_RATE <= MAX_PCR_INTERVAL_27MHZ * s.rate,
        ({
            let a = played(m, cs, true);
            let out = a.taken + a.mux.flow.out;
            let x = plain_stream(out);
            &&& 0 < out.len() <= u64::MAX
            &&& detected_layout(out) matches Some(layout) ==> r.describes(
                TsStream { layout, bytes: out },
            )
            &&& forall|i: int| 0 <= i < x.len() ==> !(#[trigger] splices_again(x, i))
        }),
    ensures
        r.violations.all_zero(),
        r.unparseable_packets == 0,
{
    let b = played(m, cs, false).mux;
    lemma_session_one_clock(m, s.rate, cs);
    lemma_session_spaced(m, cs, s, most);
    lemma_joined_output(m, cs);
    lemma_report_of_output(b, r);
    assert(is_stream(b.flow.out)) by {
        reveal(sound);
        reveal(orderly);
    }
    lemma_framing_found(b.flow.out);
    let x = plain_stream(b.flow.out);
    let n = x.len() as int;
    if b.flow.anchored() {
        assert(b.flow.pacer->0.rate == s.rate && forall|i: int|
            0 <= i < n && #[trigger] has_clock_at(x, i) ==> b.flow.drained + 188 * i >= (
            b.flow.pacer->0.anchor->0).0) by {
            reveal(on_one_clock);
        }
        assert forall|i: int| 0 <= i < n implies !(#[trigger] comes_far(x, s.rate, i)) by {
            lemma_spaced_not_far(
                b.flow,
                m.plan,
                s,
                s.fresh(m.plan) + s.room + quiet_run(m, cs),
                i,
            );
        }
        lemma_paced_clocks_kept(b, n);
    } else {
        lemma_silent_kept(b, s.rate, n);
    }
}

/// A new multiplexer that is paced at `rate` and whose layout has everything where
/// it belongs: whatever calls are made, but for another rate or a break of the time
/// base, and however often the output is taken out, everything written, joined,
/// conforms, where no frame takes more than `room` bytes of the output and no more
/// than `most` are written in a row without a look at the clock, if these, 40 ms of
/// bytes and two clock references a program take at most 0,1 s. The one exception is
/// the countdown of a frame of one packet that is spliced while an earlier splicing
/// point is still being counted.
pub proof fn lemma_new_paced_session_conforms(
    plan: PlanView,
    rate: u64,
    cs: Seq<Call>,
    room: int,
    most: int,
    r: TsValidationReport,
)
    requires
        homed(plan),
        rate > 0,
        keeps_to_one_clock(cs),
        frames_fit(plan, rate as int, cs, room),
        runs_fit(MuxView::fresh(plan).rate_set(Some(rate)), cs, most),
        most >= 0,
        room >= 188,
        (clock_interval_bytes(rate as int) + 376 * plan.programs.len() + room + most)
            * TICKS_PER_BYTE_RATE <= MAX_PCR_INTERVAL_27MHZ * rate,
        ({
            let a = played(MuxView::fresh(plan).rate_set(Some(rate)), cs, true);
            let out = a.taken + a.mux.flow.out;
            let s = plain_stream(out);
            &&& 0 < out.len() <= u64::MAX
            &&& detected_layout(out) matches Some(layout) ==> r.describes(
                TsStream { layout, bytes: out },
            )
            &&& forall|i: int| 0 <= i < s.len() ==> !(#[trigger] splices_again(s, i))
        }),
    ensures
        r.violations.all_zero(),
        r.unparseable_packets == 0,
{
    let m = MuxView::fresh(plan).rate_set(Some(rate));
    let n = plan.programs.len() as int;
    let s = Spacing {
        rate: rate as int,
        room,
        limit: clock_interval_bytes(rate as int) + 376 * n + room + most,
    };
    lemma_fresh_one_clock(plan, rate);
    lemma_fresh_spaced(plan, rate, s);
    lemma_paced_session_conforms(m, cs, s, most, r);
}

} // verus!
