//! Under pacing clock references keep their interval: null packets leave no gap
//! between them, nor do frames that take little time on the wire.
use vstd::prelude::*;

use crate::muxer::byte_clock::comes_far;
use crate::muxer::clock_gaps::{
    clock_interval_bytes, clocks_close, in_step, lemma_all_tables_stay, lemma_clocks_in_step,
    lemma_close_not_far, lemma_more_lag, lemma_nothing_in_step, lemma_null_stays,
    lemma_same_in_step, lemma_sent_stays, lemma_stays, levels_fit, wire_bytes,
};
use crate::muxer::config::SpliceSpec;
use crate::muxer::conformance::plain_stream;
use crate::muxer::deliver::{
    decode_time, first_due, held_count, held_due, lead_of, lemma_first_due, ticks_27,
};
use crate::muxer::draining::{called, played, Call};
use crate::muxer::flow::{FlowView, PacketView, PlanView, TICKS_PER_BYTE_RATE};
use crate::muxer::mux::{track_for_index, MuxView};
use crate::muxer::one_clock::keeps_to_one_clock;
use crate::muxer::packets::null_packet;
use crate::muxer::plan_laws::laid_out;
use crate::muxer::settling::homed;
use crate::muxer::steady::{
    lemma_clocks_steady, lemma_idled_steady, lemma_put_steady, lemma_sent_steady,
    lemma_tables_steady, no_stream, steady,
};
use crate::muxer::well_formed::{
    is_stream, lemma_clock_started_sound, lemma_clocks_sound, lemma_fresh_sound, lemma_idled_sound,
    lemma_null_put, lemma_sent_sound, lemma_settings_sound, lemma_signals_sound, lemma_tables_sound,
    lemma_track_in_range, orderly, sound,
};
use crate::validate::pcr::MAX_PCR_INTERVAL_27MHZ;

verus! {

/// How close clock references are to be at `rate`: at most `limit` bytes apart, where
/// a frame takes at most `room` bytes.
pub struct Spacing {
    pub rate: int,
    pub room: int,
    pub limit: int,
}

impl Spacing {
    /// The bytes since the last clock reference of a program, right after those that
    /// are due: less than 40 ms, and these references.
    pub open spec fn fresh(self, plan: PlanView) -> int {
        clock_interval_bytes(self.rate) + 188 * plan.programs.len()
    }

    /// With `lag` bytes since the last clock references those that are due still come
    /// in time, and a frame after them takes no more.
    pub open spec fn fits(self, plan: PlanView, lag: int) -> bool {
        &&& 188 <= self.room
        &&& self.fresh(plan) + self.room <= lag
        &&& lag + 188 * plan.programs.len() <= self.limit
    }

    /// Frame `pkt` of stream `t` has a decode time and takes at most `room` bytes.
    pub open spec fn is_short(self, plan: PlanView, t: int, pkt: PacketView) -> bool {
        decode_time(pkt) is Some && wire_bytes(plan, self.rate, t, pkt) <= self.room
    }
}

/// A paced output whose clock references are close, the last ones at most `lag` bytes
/// back. Every held frame is short.
#[verifier::opaque]
pub open spec fn spaced(f: FlowView, plan: PlanView, s: Spacing, lag: int) -> bool {
    &&& sound(f, plan)
    &&& in_step(f, plan, s.limit, lag)
    &&& f.pacer is Some
    &&& f.pacer->0.rate == s.rate
    &&& f.tracks.len() == plan.tracks.len()
    &&& f.pacer->0.held.len() == plan.tracks.len()
    &&& forall|t: int, i: int|
        0 <= t < plan.tracks.len() && 0 <= i < f.pacer->0.held[t].len() ==> s.is_short(
            plan,
            t,
            #[trigger] f.pacer->0.held[t][i],
        )
}

/// What keeps the streams, the clock and the held frames.
proof fn lemma_steady_spaced(
    f: FlowView,
    g: FlowView,
    j: int,
    plan: PlanView,
    s: Spacing,
    lag: int,
    now: int,
)
    requires
        spaced(f, plan, s, lag),
        steady(f, g, j),
        sound(g, plan),
        in_step(g, plan, s.limit, now),
    ensures
        spaced(g, plan, s, now),
        g.anchored() == f.anchored(),
{
    reveal(spaced);
    reveal(steady);
}

proof fn lemma_lag_grows(f: FlowView, plan: PlanView, s: Spacing, lag: int, now: int)
    requires
        spaced(f, plan, s, lag),
        lag <= now,
    ensures
        spaced(f, plan, s, now),
{
    reveal(spaced);
    lemma_more_lag(f, plan, s.limit, lag, now);
}

/// The clock references that are due.
proof fn lemma_clocks_spaced(f: FlowView, plan: PlanView, s: Spacing, lag: int)
    requires
        homed(plan),
        spaced(f, plan, s, lag),
        f.anchored(),
        lag + 188 * plan.programs.len() <= s.limit,
    ensures
        ({
            let g = f.clocks_put(plan, plan.programs.len() as int);
            &&& spaced(g, plan, s, s.fresh(plan))
            &&& g.anchored()
        }),
{
    let n = plan.programs.len() as int;
    let g = f.clocks_put(plan, n);
    assert(plan.wf()) by {
        reveal(laid_out);
    }
    assert(sound(f, plan) && in_step(f, plan, s.limit, lag) && f.pacer->0.rate == s.rate) by {
        reveal(spaced);
    }
    lemma_clocks_in_step(f, plan, s.limit, lag);
    lemma_clocks_sound(f, plan, n);
    lemma_clocks_steady(f, plan, n);
    lemma_steady_spaced(f, g, no_stream(), plan, s, lag, s.fresh(plan));
}

/// The clock references that are due, and a null packet.
proof fn lemma_null_spaced(f: FlowView, plan: PlanView, s: Spacing, lag: int)
    requires
        homed(plan),
        spaced(f, plan, s, lag),
        f.anchored(),
        s.fits(plan, lag),
    ensures
        ({
            let g = f.clocks_put(plan, plan.programs.len() as int).put(null_packet());
            &&& spaced(g, plan, s, lag)
            &&& g.anchored()
        }),
{
    let a = f.clocks_put(plan, plan.programs.len() as int);
    let g = a.put(null_packet());
    lemma_clocks_spaced(f, plan, s, lag);
    assert(sound(a, plan) && in_step(a, plan, s.limit, s.fresh(plan))) by {
        reveal(spaced);
    }
    assert(plan.wf()) by {
        reveal(laid_out);
    }
    lemma_null_stays(a, plan);
    lemma_stays(a, g, plan, s.limit, s.fresh(plan));
    lemma_null_put(a, plan);
    lemma_put_steady(a, null_packet());
    lemma_steady_spaced(a, g, no_stream(), plan, s, s.fresh(plan), s.fresh(plan) + 188);
    lemma_lag_grows(g, plan, s, s.fresh(plan) + 188, lag);
}

/// Null packets until the clock reaches `target` leave no gap: whatever went before,
/// the clock references stay within `limit` if 40 ms of bytes, a null packet and two
/// clock references a program do, and if those that were due at first do.
pub proof fn lemma_null_run_in_step(
    f: FlowView,
    plan: PlanView,
    target: int,
    fuel: nat,
    limit: int,
    lag: int,
)
    requires
        homed(plan),
        f.anchored(),
        in_step(f, plan, limit, lag),
        clock_interval_bytes(f.pacer->0.rate) + 188 * plan.programs.len() + 188 <= lag,
        lag + 188 * plan.programs.len() <= limit,
    ensures
        in_step(f.idled(plan, target, fuel), plan, limit, lag),
    decreases fuel,
{
    if fuel > 0 && f.now() < target {
        let n = plan.programs.len() as int;
        let a = f.clocks_put(plan, n);
        let b = a.put(null_packet());
        let fresh = clock_interval_bytes(f.pacer->0.rate) + 188 * n;
        lemma_clocks_in_step(f, plan, limit, lag);
        lemma_null_stays(a, plan);
        lemma_stays(a, b, plan, limit, fresh);
        lemma_more_lag(b, plan, limit, fresh + 188, lag);
        lemma_clocks_steady(f, plan, n);
        assert(b.anchored() && b.pacer->0.rate == f.pacer->0.rate) by {
            reveal(steady);
        }
        lemma_null_run_in_step(b, plan, target, (fuel - 1) as nat, limit, lag);
    }
}

/// Under pacing null packets leave no gap of more than 0,1 s between the clock
/// references of a PID, if at the rate of the output 40 ms of bytes, a null packet
/// and two clock references a program take no more, and the last clock reference of
/// every program was not too far back before them.
pub proof fn lemma_null_run_leaves_no_gap(
    f: FlowView,
    plan: PlanView,
    target: int,
    fuel: nat,
    lag: int,
    i: int,
)
    requires
        homed(plan),
        sound(f, plan),
        f.anchored(),
        ({
            let n = plan.programs.len() as int;
            let limit = MAX_PCR_INTERVAL_27MHZ * f.pacer->0.rate / TICKS_PER_BYTE_RATE as int;
            &&& in_step(f, plan, limit, lag)
            &&& clock_interval_bytes(f.pacer->0.rate) + 376 * n + 188 <= limit
            &&& lag + 188 * n <= limit
        }),
        f.idled(plan, target, fuel).out.len() <= u64::MAX,
        0 <= i < plain_stream(f.idled(plan, target, fuel).out).len(),
    ensures
        !comes_far(plain_stream(f.idled(plan, target, fuel).out), f.pacer->0.rate, i),
{
    let n = plan.programs.len() as int;
    let rate = f.pacer->0.rate;
    let limit = MAX_PCR_INTERVAL_27MHZ * rate / TICKS_PER_BYTE_RATE as int;
    let fresh = clock_interval_bytes(rate) + 188 * n + 188;
    let g = f.idled(plan, target, fuel);
    let most = if lag < fresh { fresh } else { lag };
    lemma_more_lag(f, plan, limit, lag, most);
    lemma_null_run_in_step(f, plan, target, fuel, limit, most);
    assert(plan.wf()) by {
        reveal(laid_out);
    }
    lemma_idled_sound(f, plan, target, fuel);
    assert(is_stream(g.out) && clocks_close(g.out, limit)) by {
        reveal(in_step);
        reveal(sound);
        reveal(orderly);
    }
    lemma_close_not_far(g.out, limit, rate, i);
}

proof fn lemma_idled_spaced(
    f: FlowView,
    plan: PlanView,
    target: int,
    fuel: nat,
    s: Spacing,
    lag: int,
)
    requires
        homed(plan),
        spaced(f, plan, s, lag),
        f.anchored(),
        s.fits(plan, lag),
    ensures
        spaced(f.idled(plan, target, fuel), plan, s, lag),
        f.idled(plan, target, fuel).anchored(),
{
    assert(sound(f, plan) && in_step(f, plan, s.limit, lag) && f.pacer->0.rate == s.rate) by {
        reveal(spaced);
    }
    assert(plan.wf()) by {
        reveal(laid_out);
    }
    lemma_null_run_in_step(f, plan, target, fuel, s.limit, lag);
    lemma_idled_sound(f, plan, target, fuel);
    lemma_idled_steady(f, plan, target, fuel);
    lemma_steady_spaced(f, f.idled(plan, target, fuel), no_stream(), plan, s, lag, lag);
}

/// The clock references that are due, and a short frame.
proof fn lemma_short_spaced(
    f: FlowView,
    plan: PlanView,
    t: int,
    pkt: PacketView,
    s: Spacing,
    lag: int,
)
    requires
        homed(plan),
        spaced(f, plan, s, lag),
        f.anchored(),
        s.fits(plan, lag),
        0 <= t < plan.tracks.len(),
        s.is_short(plan, t, pkt),
    ensures
        ({
            let g = f.clocks_put(plan, plan.programs.len() as int).sent(plan, t, pkt, true).flow;
            &&& spaced(g, plan, s, s.fresh(plan) + s.room)
            &&& g.anchored()
        }),
{
    let a = f.clocks_put(plan, plan.programs.len() as int);
    let g = a.sent(plan, t, pkt, true).flow;
    let fresh = s.fresh(plan);
    lemma_clocks_spaced(f, plan, s, lag);
    assert(sound(a, plan) && in_step(a, plan, s.limit, fresh) && a.pacer->0.rate == s.rate
        && a.tracks.len() == plan.tracks.len()) by {
        reveal(spaced);
    }
    assert(plan.wf()) by {
        reveal(laid_out);
    }
    assert(levels_fit(a)) by {
        reveal(in_step);
    }
    lemma_sent_stays(a, plan, t, pkt, true);
    lemma_sent_sound(a, plan, t, pkt, true);
    lemma_sent_steady(a, plan, t, pkt, true);
    lemma_stays(a, g, plan, s.limit, fresh);
    let now = fresh + (g.pos() - a.pos());
    lemma_steady_spaced(a, g, t, plan, s, fresh, now);
    lemma_lag_grows(g, plan, s, now, fresh + s.room);
}

/// The byte clock starts.
proof fn lemma_started_spaced(f: FlowView, plan: PlanView, time: int, s: Spacing, lag: int)
    requires
        spaced(f, plan, s, lag),
    ensures
        spaced(f.clock_started(time), plan, s, lag),
        f.clock_started(time).anchored(),
{
    let g = f.clock_started(time);
    assert(sound(f, plan) && in_step(f, plan, s.limit, lag) && f.pacer is Some) by {
        reveal(spaced);
    }
    lemma_clock_started_sound(f, plan, time);
    assert(in_step(g, plan, s.limit, lag)) by {
        lemma_same_in_step(f, g, plan, s.limit, lag);
    }
    reveal(spaced);
}

/// A held frame.
proof fn lemma_held_spaced(
    f: FlowView,
    plan: PlanView,
    t: int,
    pkt: PacketView,
    s: Spacing,
    lag: int,
)
    requires
        homed(plan),
        spaced(f, plan, s, lag),
        s.fits(plan, lag),
        0 <= t < plan.tracks.len(),
        s.is_short(plan, t, pkt),
    ensures
        spaced(f.delivered_held(plan, t, pkt).flow, plan, s, lag),
        f.delivered_held(plan, t, pkt).flow.anchored(),
{
    assert(f.pacer is Some) by {
        reveal(spaced);
    }
    let d = decode_time(pkt)->0;
    let target = ticks_27(d) - lead_of(plan.tracks[t].is_video);
    let a = f.clock_started(target);
    lemma_started_spaced(f, plan, target, s, lag);
    lemma_idled_spaced(a, plan, target, a.waits(target), s, lag);
    let b = a.idled(plan, target, a.waits(target));
    lemma_short_spaced(b, plan, t, pkt, s, lag);
    let g = b.clocks_put(plan, plan.programs.len() as int).sent(plan, t, pkt, true).flow;
    lemma_lag_grows(g, plan, s, s.fresh(plan) + s.room, lag);
}

/// The first held frame of a stream is taken.
proof fn lemma_popped_spaced(f: FlowView, plan: PlanView, t: int, s: Spacing, lag: int)
    requires
        spaced(f, plan, s, lag),
        0 <= t < plan.tracks.len(),
        f.pacer->0.held[t].len() > 0,
    ensures
        spaced(f.popped(t), plan, s, lag),
        s.is_short(plan, t, f.pacer->0.held[t][0]),
        f.popped(t).anchored() == f.anchored(),
{
    let g = f.popped(t);
    reveal(spaced);
    assert(sound(g, plan)) by {
        reveal(sound);
        reveal(orderly);
    }
    lemma_same_in_step(f, g, plan, s.limit, lag);
    let held = g.pacer->0.held;
    assert forall|k: int, i: int|
        0 <= k < plan.tracks.len() && 0 <= i < held[k].len() implies s.is_short(
        plan,
        k,
        #[trigger] held[k][i],
    ) by {
        if k == t {
            assert(held[k][i] == f.pacer->0.held[t][i + 1]);
        } else {
            assert(held[k][i] == f.pacer->0.held[k][i]);
        }
    }
}

proof fn lemma_flushed_spaced(
    f: FlowView,
    plan: PlanView,
    horizon: int,
    fuel: nat,
    s: Spacing,
    lag: int,
)
    requires
        homed(plan),
        spaced(f, plan, s, lag),
        f.anchored(),
        s.fits(plan, lag),
    ensures
        spaced(f.flushed(plan, horizon, fuel).flow, plan, s, lag),
        f.flushed(plan, horizon, fuel).flow.anchored(),
    decreases fuel,
{
    let held = f.pacer->0.held;
    assert(held.len() == plan.tracks.len()) by {
        reveal(spaced);
    }
    lemma_first_due(held, held.len() as int);
    match first_due(held, held.len() as int) {
        Some(t) if fuel > 0 && held_due(held[t][0]) <= horizon => {
            lemma_popped_spaced(f, plan, t, s, lag);
            let a = f.popped(t);
            lemma_held_spaced(a, plan, t, held[t][0], s, lag);
            let o = a.delivered_held(plan, t, held[t][0]);
            if o.error is None {
                lemma_flushed_spaced(o.flow, plan, horizon, (fuel - 1) as nat, s, lag);
            }
        },
        _ => {},
    }
}

proof fn lemma_waited_spaced(
    f: FlowView,
    plan: PlanView,
    target: int,
    fuel: nat,
    s: Spacing,
    lag: int,
)
    requires
        homed(plan),
        spaced(f, plan, s, lag),
        f.anchored(),
        s.fits(plan, lag),
    ensures
        spaced(f.waited(plan, target, fuel).flow, plan, s, lag),
        f.waited(plan, target, fuel).flow.anchored(),
    decreases fuel,
{
    if fuel > 0 && f.now() < target {
        lemma_flushed_spaced(f, plan, f.now(), held_count(f.pacer->0.held), s, lag);
        let o = f.flushed_all(plan, f.now());
        if o.error is None && o.flow.now() < target {
            lemma_null_spaced(o.flow, plan, s, lag);
            lemma_waited_spaced(
                o.flow.clocks_put(plan, plan.programs.len() as int).put(null_packet()),
                plan,
                target,
                (fuel - 1) as nat,
                s,
                lag,
            );
        }
    }
}

/// A short frame with a decode time. Accepted, it comes with fresh clock references.
proof fn lemma_delivered_spaced(
    f: FlowView,
    plan: PlanView,
    t: int,
    pkt: PacketView,
    s: Spacing,
    lag: int,
)
    requires
        homed(plan),
        spaced(f, plan, s, lag),
        s.fits(plan, lag),
        0 <= t < plan.tracks.len(),
        s.is_short(plan, t, pkt),
    ensures
        ({
            let o = f.delivered(plan, t, pkt);
            spaced(o.flow, plan, s, if o.error is None { s.fresh(plan) + s.room } else { lag })
        }),
{
    assert(f.pacer is Some) by {
        reveal(spaced);
    }
    let d = decode_time(pkt)->0;
    let target = ticks_27(d) - lead_of(plan.tracks[t].is_video);
    let a = f.clock_started(target);
    lemma_started_spaced(f, plan, target, s, lag);
    lemma_waited_spaced(a, plan, target, a.waits(target), s, lag);
    let o = a.waited(plan, target, a.waits(target));
    if o.error is None && o.flow.now() <= ticks_27(d) {
        let horizon = o.flow.now() + o.flow.wire_time(pkt.data.len() as int);
        lemma_flushed_spaced(o.flow, plan, horizon, held_count(o.flow.pacer->0.held), s, lag);
        let q = o.flow.flushed_all(plan, horizon);
        lemma_short_spaced(q.flow, plan, t, pkt, s, lag);
        let g = q.flow.clocks_put(plan, plan.programs.len() as int).sent(plan, t, pkt, true).flow;
        lemma_lag_grows(g, plan, s, s.fresh(plan) + s.room, lag);
    }
}

proof fn lemma_released_spaced(f: FlowView, plan: PlanView, fuel: nat, s: Spacing, lag: int)
    requires
        homed(plan),
        spaced(f, plan, s, lag),
        s.fits(plan, lag),
    ensures
        spaced(f.released(plan, fuel).flow, plan, s, lag),
    decreases fuel,
{
    let held = f.pacer->0.held;
    assert(held.len() == plan.tracks.len() && f.pacer is Some) by {
        reveal(spaced);
    }
    lemma_first_due(held, held.len() as int);
    match first_due(held, held.len() as int) {
        Some(t) if fuel > 0 => {
            lemma_popped_spaced(f, plan, t, s, lag);
            let a = f.popped(t);
            lemma_held_spaced(a, plan, t, held[t][0], s, lag);
            let o = a.delivered_held(plan, t, held[t][0]);
            if o.error is None {
                lemma_released_spaced(o.flow, plan, (fuel - 1) as nat, s, lag);
            }
        },
        _ => {},
    }
}

/// The tables.
proof fn lemma_tables_spaced(f: FlowView, plan: PlanView, s: Spacing, lag: int)
    requires
        homed(plan),
        spaced(f, plan, s, lag),
        ({
            let g = f.tables_put(plan, plan.tables.len() as int);
            lag + (g.pos() - f.pos()) <= s.limit
        }),
    ensures
        ({
            let g = f.tables_put(plan, plan.tables.len() as int);
            &&& spaced(g, plan, s, lag + (g.pos() - f.pos()))
            &&& g.anchored() == f.anchored()
            &&& f.pos() <= g.pos()
        }),
{
    let g = f.tables_put(plan, plan.tables.len() as int);
    assert(sound(f, plan) && in_step(f, plan, s.limit, lag)) by {
        reveal(spaced);
    }
    assert(plan.wf()) by {
        reveal(laid_out);
    }
    lemma_all_tables_stay(f, plan);
    lemma_stays(f, g, plan, s.limit, lag);
    lemma_tables_sound(f, plan, plan.tables.len() as int);
    lemma_tables_steady(f, plan, plan.tables.len() as int);
    lemma_steady_spaced(f, g, no_stream(), plan, s, lag, lag + (g.pos() - f.pos()));
}

/// A frame without a decode time.
proof fn lemma_untimed_spaced(
    f: FlowView,
    plan: PlanView,
    t: int,
    pkt: PacketView,
    s: Spacing,
    lag: int,
)
    requires
        homed(plan),
        spaced(f, plan, s, lag),
        0 <= t < plan.tracks.len(),
        decode_time(pkt) is None,
        lag + (f.delivered(plan, t, pkt).flow.pos() - f.pos()) <= s.limit,
    ensures
        ({
            let g = f.delivered(plan, t, pkt).flow;
            &&& spaced(g, plan, s, lag + (g.pos() - f.pos()))
            &&& f.pos() <= g.pos()
        }),
{
    let paced = f.anchored();
    let g = f.sent(plan, t, pkt, paced).flow;
    assert(f.delivered(plan, t, pkt).flow == g);
    assert(sound(f, plan) && in_step(f, plan, s.limit, lag) && f.tracks.len()
        == plan.tracks.len()) by {
        reveal(spaced);
    }
    assert(plan.wf()) by {
        reveal(laid_out);
    }
    lemma_sent_stays(f, plan, t, pkt, paced);
    lemma_sent_sound(f, plan, t, pkt, paced);
    lemma_sent_steady(f, plan, t, pkt, paced);
    lemma_stays(f, g, plan, s.limit, lag);
    lemma_steady_spaced(f, g, t, plan, s, lag, lag + (g.pos() - f.pos()));
}

/// A frame is held.
proof fn lemma_holding_spaced(
    f: FlowView,
    plan: PlanView,
    t: int,
    pkt: PacketView,
    s: Spacing,
    lag: int,
)
    requires
        spaced(f, plan, s, lag),
        0 <= t < plan.tracks.len(),
        s.is_short(plan, t, pkt),
    ensures
        spaced(f.holding(t, pkt), plan, s, lag),
        f.holding(t, pkt).anchored() == f.anchored(),
{
    let g = f.holding(t, pkt);
    reveal(spaced);
    assert(sound(g, plan)) by {
        reveal(sound);
        reveal(orderly);
    }
    lemma_same_in_step(f, g, plan, s.limit, lag);
    let held = g.pacer->0.held;
    assert forall|k: int, i: int|
        0 <= k < plan.tracks.len() && 0 <= i < held[k].len() implies s.is_short(
        plan,
        k,
        #[trigger] held[k][i],
    ) by {
        if i < f.pacer->0.held[k].len() {
            assert(held[k][i] == f.pacer->0.held[k][i]);
        }
    }
}

/// The bytes that a call writes without a look at the clock: tables, and a frame
/// without a decode time.
pub open spec fn quiet_bytes(m: MuxView, c: Call) -> int {
    let after = called(m, c).mux.flow.pos();
    match c {
        Call::Header => after - m.flow.pos(),
        Call::Trailer => after - m.flow.released_all(m.plan).flow.pos(),
        Call::Frame(pkt) => if decode_time(pkt) is None {
            after - m.flow.pos()
        } else if pkt.pts is Some && m.header_written && track_for_index(
            m.plan,
            pkt.stream_index,
            0,
        ) is Some {
            m.tables_repeated(pkt.pts->0).flow.pos() - m.flow.pos()
        } else {
            0
        },
        _ => 0,
    }
}

/// The call writes a frame at once, by its decode time.
pub open spec fn keeps_time(m: MuxView, c: Call) -> bool {
    c matches Call::Frame(pkt) && {
        &&& decode_time(pkt) is Some
        &&& called(m, c).error is None
        &&& pkt.pts is Some && m.flow.anchored() ==> m.plan.tracks[track_for_index(
            m.plan,
            pkt.stream_index,
            0,
        )->0].is_video
    }
}

/// Of the bytes that the calls `cs` write without a look at the clock, those since
/// the last frame that was written at once by its decode time.
pub open spec fn quiet_run(m: MuxView, cs: Seq<Call>) -> int
    decreases cs.len(),
{
    if cs.len() == 0 {
        0
    } else {
        let a = played(m, cs.drop_last(), false).mux;
        if keeps_time(a, cs.last()) {
            0
        } else {
            quiet_run(m, cs.drop_last()) + quiet_bytes(a, cs.last())
        }
    }
}

/// No such run is longer than `most`.
pub open spec fn runs_fit(m: MuxView, cs: Seq<Call>, most: int) -> bool
    decreases cs.len(),
{
    cs.len() > 0 ==> {
        let a = played(m, cs.drop_last(), false).mux;
        &&& runs_fit(m, cs.drop_last(), most)
        &&& quiet_run(m, cs.drop_last()) + quiet_bytes(a, cs.last()) <= most
    }
}

/// Every frame of the calls `cs` that has a decode time takes at most `room` bytes of
/// the output at `rate`.
pub open spec fn frames_fit(plan: PlanView, rate: int, cs: Seq<Call>, room: int) -> bool {
    forall|i: int|
        0 <= i < cs.len() ==> ((#[trigger] cs[i]) matches Call::Frame(pkt) ==> frame_fits(
            plan,
            rate,
            pkt,
            room,
        ))
}

/// The tables, where they are due.
proof fn lemma_repeated_spaced(m: MuxView, x: i64, s: Spacing, lag: int)
    requires
        homed(m.plan),
        spaced(m.flow, m.plan, s, lag),
        lag + (m.tables_repeated(x).flow.pos() - m.flow.pos()) <= s.limit,
    ensures
        ({
            let a = m.tables_repeated(x);
            &&& spaced(a.flow, m.plan, s, lag + (a.flow.pos() - m.flow.pos()))
            &&& a.flow.pos() >= m.flow.pos()
            &&& a.flow.anchored() == m.flow.anchored()
        }),
{
    let a = m.tables_repeated(x);
    if a.flow != m.flow {
        assert(a.flow == m.flow.tables_put(m.plan, m.plan.tables.len() as int));
        lemma_tables_spaced(m.flow, m.plan, s, lag);
    }
}

/// A frame with a decode time, once the tables are written.
proof fn lemma_timed_spaced(
    f: FlowView,
    plan: PlanView,
    t: int,
    pkt: PacketView,
    s: Spacing,
    lag: int,
)
    requires
        homed(plan),
        spaced(f, plan, s, lag),
        s.fits(plan, lag),
        0 <= t < plan.tracks.len(),
        s.is_short(plan, t, pkt),
    ensures
        ({
            let waits = f.anchored() && !plan.tracks[t].is_video && pkt.pts is Some;
            let h = f.holding(t, pkt);
            let o = if waits { h.flushed_all(plan, h.now()) } else { f.delivered(plan, t, pkt) };
            spaced(
                o.flow,
                plan,
                s,
                if o.error is None && !waits { s.fresh(plan) + s.room } else { lag },
            )
        }),
{
    if f.anchored() && !plan.tracks[t].is_video && pkt.pts is Some {
        lemma_holding_spaced(f, plan, t, pkt, s, lag);
        let h = f.holding(t, pkt);
        lemma_flushed_spaced(h, plan, h.now(), held_count(h.pacer->0.held), s, lag);
    } else {
        lemma_delivered_spaced(f, plan, t, pkt, s, lag);
    }
}

/// Frame `pkt` keeps to its room.
pub open spec fn frame_fits(plan: PlanView, rate: int, pkt: PacketView, room: int) -> bool {
    track_for_index(plan, pkt.stream_index, 0) matches Some(t) ==> (decode_time(pkt) is Some
        ==> wire_bytes(plan, rate, t, pkt) <= room)
}

/// A frame with a decode time that is taken, with the tables before it.
proof fn lemma_taken_spaced(m: MuxView, t: int, pkt: PacketView, s: Spacing, run: int)
    requires
        homed(m.plan),
        spaced(m.flow, m.plan, s, s.fresh(m.plan) + s.room + run),
        run >= 0,
        s.room >= 188,
        m.header_written,
        track_for_index(m.plan, pkt.stream_index, 0) == Some(t),
        s.is_short(m.plan, t, pkt),
        s.fresh(m.plan) + s.room + run + quiet_bytes(m, Call::Frame(pkt)) + 188
            * m.plan.programs.len() <= s.limit,
    ensures
        ({
            let o = m.packet_written(pkt);
            let waits = m.flow.anchored() && !m.plan.tracks[t].is_video && pkt.pts is Some;
            let q = quiet_bytes(m, Call::Frame(pkt));
            let now = if o.error is None && !waits { 0 } else { run + q };
            &&& spaced(o.mux.flow, m.plan, s, s.fresh(m.plan) + s.room + now)
            &&& now >= 0
        }),
{
    let plan = m.plan;
    let lag = s.fresh(plan) + s.room + run;
    let q = quiet_bytes(m, Call::Frame(pkt));
    lemma_track_in_range(plan, pkt.stream_index, 0);
    let a = match pkt.pts {
        Some(x) => m.tables_repeated(x),
        None => m,
    };
    assert(q == a.flow.pos() - m.flow.pos());
    if pkt.pts is Some {
        lemma_repeated_spaced(m, pkt.pts->0, s, lag);
    }
    assert(s.fits(plan, lag + q));
    lemma_timed_spaced(a.flow, plan, t, pkt, s, lag + q);
}

/// A frame without a decode time that is taken.
proof fn lemma_plain_spaced(m: MuxView, t: int, pkt: PacketView, s: Spacing, lag: int)
    requires
        homed(m.plan),
        spaced(m.flow, m.plan, s, lag),
        m.header_written,
        track_for_index(m.plan, pkt.stream_index, 0) == Some(t),
        decode_time(pkt) is None,
        lag + (m.packet_written(pkt).mux.flow.pos() - m.flow.pos()) <= s.limit,
    ensures
        ({
            let g = m.packet_written(pkt).mux.flow;
            &&& spaced(g, m.plan, s, lag + (g.pos() - m.flow.pos()))
            &&& g.pos() >= m.flow.pos()
        }),
{
    lemma_track_in_range(m.plan, pkt.stream_index, 0);
    assert(m.packet_written(pkt).mux.flow == m.flow.delivered(m.plan, t, pkt).flow);
    lemma_untimed_spaced(m.flow, m.plan, t, pkt, s, lag);
}

/// A frame, written or refused.
proof fn lemma_written_spaced(m: MuxView, pkt: PacketView, s: Spacing, run: int)
    requires
        homed(m.plan),
        spaced(m.flow, m.plan, s, s.fresh(m.plan) + s.room + run),
        run >= 0,
        s.room >= 188,
        frame_fits(m.plan, s.rate, pkt, s.room),
        s.fresh(m.plan) + s.room + run + quiet_bytes(m, Call::Frame(pkt)) + 188
            * m.plan.programs.len() <= s.limit,
    ensures
        ({
            let c = Call::Frame(pkt);
            let now = if keeps_time(m, c) { 0 } else { run + quiet_bytes(m, c) };
            &&& spaced(m.packet_written(pkt).mux.flow, m.plan, s, s.fresh(m.plan) + s.room + now)
            &&& now >= 0
        }),
{
    let c = Call::Frame(pkt);
    match track_for_index(m.plan, pkt.stream_index, 0) {
        Some(t) if m.header_written => {
            if decode_time(pkt) is None {
                let g = m.packet_written(pkt).mux.flow;
                assert(quiet_bytes(m, c) == g.pos() - m.flow.pos());
                lemma_plain_spaced(m, t, pkt, s, s.fresh(m.plan) + s.room + run);
                assert(!keeps_time(m, c));
            } else {
                lemma_taken_spaced(m, t, pkt, s, run);
                let waits = m.flow.anchored() && !m.plan.tracks[t].is_video && pkt.pts is Some;
                assert(keeps_time(m, c) == (m.packet_written(pkt).error is None && !waits));
            }
        },
        _ => {
            assert(m.packet_written(pkt).mux == m);
            assert(quiet_bytes(m, c) == 0);
            assert(!keeps_time(m, c));
        },
    }
}

/// The end of the stream.
proof fn lemma_trailer_spaced(m: MuxView, s: Spacing, lag: int)
    requires
        homed(m.plan),
        spaced(m.flow, m.plan, s, lag),
        s.fits(m.plan, lag),
        lag + quiet_bytes(m, Call::Trailer) <= s.limit,
    ensures
        spaced(m.trailer_written().mux.flow, m.plan, s, lag + quiet_bytes(m, Call::Trailer)),
        quiet_bytes(m, Call::Trailer) >= 0,
{
    assert(m.flow.pacer is Some) by {
        reveal(spaced);
    }
    let n = held_count(m.flow.pacer->0.held);
    lemma_released_spaced(m.flow, m.plan, n, s, lag);
    let o = m.flow.released(m.plan, n);
    assert(m.flow.released_all(m.plan) == o);
    if o.error is None {
        let g = o.flow.tables_put(m.plan, m.plan.tables.len() as int);
        assert(m.trailer_written().mux.flow == g);
        lemma_tables_spaced(o.flow, m.plan, s, lag);
    }
}

/// Any call but a new rate or a break of the time base.
proof fn lemma_call_spaced(m: MuxView, c: Call, s: Spacing, run: int)
    requires
        homed(m.plan),
        spaced(m.flow, m.plan, s, s.fresh(m.plan) + s.room + run),
        run >= 0,
        s.room >= 188,
        !(c is Rate),
        !(c is Break),
        c matches Call::Frame(pkt) ==> frame_fits(m.plan, s.rate, pkt, s.room),
        s.fresh(m.plan) + s.room + run + quiet_bytes(m, c) + 188 * m.plan.programs.len()
            <= s.limit,
        s.fresh(m.plan) + s.room + run + 188 * m.plan.programs.len() <= s.limit,
    ensures
        ({
            let now = if keeps_time(m, c) { 0 } else { run + quiet_bytes(m, c) };
            &&& spaced(called(m, c).mux.flow, m.plan, s, s.fresh(m.plan) + s.room + now)
            &&& now >= 0
        }),
{
    let lag = s.fresh(m.plan) + s.room + run;
    match c {
        Call::Frame(pkt) => {
            lemma_written_spaced(m, pkt, s, run);
        },
        Call::Header => {
            let g = m.flow.tables_put(m.plan, m.plan.tables.len() as int);
            assert(called(m, c).mux.flow == g);
            lemma_tables_spaced(m.flow, m.plan, s, lag);
        },
        Call::Splice(index, spec) => {
            assert(m.plan.wf()) by {
                reveal(laid_out);
            }
            lemma_armed_spaced(m, index, spec, s, lag);
        },
        Call::Trailer => {
            lemma_trailer_spaced(m, s, lag);
        },
        _ => {},
    }
}

/// A splicing point that is asked for.
proof fn lemma_armed_spaced(m: MuxView, index: u32, spec: SpliceSpec, s: Spacing, lag: int)
    requires
        m.plan.wf(),
        spaced(m.flow, m.plan, s, lag),
    ensures
        spaced(m.splice_armed(index, spec).mux.flow, m.plan, s, lag),
{
    reveal(spaced);
    lemma_signals_sound(m, index, spec, 0);
    lemma_track_in_range(m.plan, index, 0);
    lemma_same_in_step(m.flow, m.splice_armed(index, spec).mux.flow, m.plan, s.limit, lag);
}

/// A session whose frames and runs fit keeps its clock references close.
pub proof fn lemma_session_spaced(m: MuxView, cs: Seq<Call>, s: Spacing, most: int)
    requires
        homed(m.plan),
        keeps_to_one_clock(cs),
        spaced(m.flow, m.plan, s, s.fresh(m.plan) + s.room),
        frames_fit(m.plan, s.rate, cs, s.room),
        runs_fit(m, cs, most),
        most >= 0,
        s.room >= 188,
        s.fresh(m.plan) + s.room + most + 188 * m.plan.programs.len() <= s.limit,
    ensures
        ({
            let o = played(m, cs, false).mux;
            &&& o.plan == m.plan
            &&& 0 <= quiet_run(m, cs) <= most
            &&& spaced(o.flow, m.plan, s, s.fresh(m.plan) + s.room + quiet_run(m, cs))
        }),
    decreases cs.len(),
{
    if cs.len() > 0 {
        let head = cs.drop_last();
        let c = cs.last();
        assert(cs[cs.len() - 1] == c);
        assert(keeps_to_one_clock(head) && frames_fit(m.plan, s.rate, head, s.room)) by {
            assert forall|i: int| 0 <= i < head.len() implies #[trigger] head[i] == cs[i] by {}
        }
        lemma_session_spaced(m, head, s, most);
        let a = played(m, head, false).mux;
        lemma_call_spaced(a, c, s, quiet_run(m, head));
        lemma_call_plan(a, c);
    }
}

/// A call leaves the layout alone.
proof fn lemma_call_plan(m: MuxView, c: Call)
    ensures
        called(m, c).mux.plan == m.plan,
{
}

/// A new multiplexer that is paced has no clock reference yet.
pub proof fn lemma_fresh_spaced(plan: PlanView, rate: u64, s: Spacing)
    requires
        homed(plan),
        rate > 0,
        s.rate == rate,
        s.room >= 188,
    ensures
        spaced(
            MuxView::fresh(plan).rate_set(Some(rate)).flow,
            plan,
            s,
            s.fresh(plan) + s.room,
        ),
{
    let m = MuxView::fresh(plan).rate_set(Some(rate));
    assert(plan.wf()) by {
        reveal(laid_out);
    }
    lemma_fresh_sound(plan);
    lemma_settings_sound(MuxView::fresh(plan), rate);
    lemma_nothing_in_step(m.flow, plan, s.limit, s.fresh(plan) + s.room);
    reveal(spaced);
}

/// What a paced session wrote has no clock reference that comes far after the one
/// before it.
pub(crate) proof fn lemma_spaced_not_far(
    f: FlowView,
    plan: PlanView,
    s: Spacing,
    lag: int,
    i: int,
)
    requires
        spaced(f, plan, s, lag),
        s.limit * TICKS_PER_BYTE_RATE <= MAX_PCR_INTERVAL_27MHZ * s.rate,
        f.out.len() <= u64::MAX,
        0 <= i < plain_stream(f.out).len(),
    ensures
        !comes_far(plain_stream(f.out), s.rate, i),
{
    assert(is_stream(f.out) && clocks_close(f.out, s.limit)) by {
        reveal(spaced);
        reveal(in_step);
        reveal(sound);
        reveal(orderly);
    }
    lemma_close_not_far(f.out, s.limit, s.rate, i);
}

} // verus!
