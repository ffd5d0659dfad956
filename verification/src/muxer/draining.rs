//! Taking the output out changes nothing of what follows.
use vstd::prelude::*;

use crate::muxer::config::{MuxError, SpliceSpec};
use crate::muxer::deliver::{
    decode_time, first_due, held_count, held_due, lead_of, riders_for, ticks_27, Outcome,
};
use crate::muxer::emit::{guarded, tb_key, PCR_MAX_INTERVAL_90K, PCR_STEP_90K};
use crate::muxer::flow::{
    lemma_null_drains_bsys, lemma_null_drains_tb, FlowView, PacketView, PlanView, Slot, AUDIO_TB_RX,
    BSYS_PACKET_SCALED, BSYS_SIZE_SCALED, SYS_TB_KEY, SYS_TB_RX, TB_SIZE,
};
use crate::muxer::frame::Riders;
use crate::muxer::mux::{program_for, track_for_index, MuxOutcome, MuxView};
use crate::muxer::packets::{null_packet, pes_take, psi_packet, psi_take};
use crate::muxer::pes::{frame_error, frame_packets, ring};

verus! {

impl FlowView {
    /// As if `d`, which was taken out, were still there.
    pub open spec fn refilled(self, d: Seq<u8>) -> FlowView {
        FlowView { out: d + self.out, drained: self.drained - d.len(), ..self }
    }
}

/// As if `d`, which was taken out, were still there.
pub open spec fn refilled_outcome(o: Outcome, d: Seq<u8>) -> Outcome {
    Outcome { flow: o.flow.refilled(d), error: o.error }
}

proof fn lemma_put_refilled(f: FlowView, packet: Seq<u8>, d: Seq<u8>)
    ensures
        f.refilled(d).put(packet) == f.put(packet).refilled(d),
        f.refilled(d).pos() == f.pos(),
{
    assert(d + f.out + packet =~= d + (f.out + packet));
}

proof fn lemma_tb_paced_refilled(f: FlowView, key: u16, rx: int, d: Seq<u8>)
    ensures
        f.refilled(d).tb_paced(key, rx) == f.tb_paced(key, rx).refilled(d),
    decreases f.pacer->0.tb_level(key, rx, f.pos()),
{
    if f.pacer is Some && rx > 0 {
        let p = f.pacer->0;
        let level = p.tb_level(key, rx, f.pos());
        if !(level + 188 * p.rate <= TB_SIZE * p.rate || level <= 0) {
            lemma_null_drains_tb(f, key, rx);
            let a = f.with_tb(key, level);
            lemma_put_refilled(a, null_packet(), d);
            lemma_tb_paced_refilled(a.put(null_packet()), key, rx, d);
            assert(f.refilled(d).with_tb(key, level) == a.refilled(d));
        }
    }
}

proof fn lemma_bsys_paced_refilled(f: FlowView, d: Seq<u8>)
    ensures
        f.refilled(d).bsys_paced() == f.bsys_paced().refilled(d),
    decreases f.pacer->0.bsys_level(f.pos()),
{
    if f.pacer is Some {
        let p = f.pacer->0;
        let level = p.bsys_level(f.pos());
        if !(level + BSYS_PACKET_SCALED * p.rate <= BSYS_SIZE_SCALED * p.rate || level <= 0) {
            lemma_null_drains_bsys(f);
            let a = f.with_bsys(level);
            lemma_put_refilled(a, null_packet(), d);
            lemma_bsys_paced_refilled(a.put(null_packet()), d);
            assert(f.refilled(d).with_bsys(level) == a.refilled(d));
        }
    }
}

proof fn lemma_section_refilled(
    f: FlowView,
    pid: u16,
    slot: Slot,
    key: u16,
    rest: Seq<u8>,
    start: bool,
    d: Seq<u8>,
)
    ensures
        f.refilled(d).section_put(pid, slot, key, rest, start) == f.section_put(
            pid,
            slot,
            key,
            rest,
            start,
        ).refilled(d),
    decreases rest.len() + (if start { 1int } else { 0 }),
{
    if start || rest.len() > 0 {
        let a = f.tb_paced(key, SYS_TB_RX as int);
        let b = if key == SYS_TB_KEY { a.bsys_paced() } else { a };
        lemma_tb_paced_refilled(f, key, SYS_TB_RX as int, d);
        lemma_bsys_paced_refilled(a, d);
        let packet = psi_packet(pid, b.counter(slot), start, rest);
        lemma_put_refilled(b, packet, d);
        let c = b.put(packet).count_table(slot);
        assert(b.refilled(d).put(packet).count_table(slot) == c.refilled(d));
        lemma_section_refilled(
            c,
            pid,
            slot,
            key,
            rest.skip(psi_take(start, rest.len() as int)),
            false,
            d,
        );
    }
}

proof fn lemma_tables_refilled(f: FlowView, plan: PlanView, n: int, d: Seq<u8>)
    ensures
        f.refilled(d).tables_put(plan, n) == f.tables_put(plan, n).refilled(d),
    decreases n,
{
    if n > 0 {
        lemma_tables_refilled(f, plan, n - 1, d);
        let t = plan.tables[n - 1];
        let a = f.tables_put(plan, n - 1);
        lemma_section_refilled(a, t.pid, t.slot, tb_key(plan, t.pid), t.section, true, d);
    }
}

proof fn lemma_pcr_refilled(f: FlowView, plan: PlanView, p: int, base: u64, ext: u16, d: Seq<u8>)
    ensures
        f.refilled(d).pcr_put(plan, p, base, ext) == f.pcr_put(plan, p, base, ext).refilled(d),
{
    match plan.programs[p].pcr_track {
        None => {},
        Some(t) => {
            let packet = crate::muxer::packets::pcr_packet(
                plan.programs[p].pcr_pid,
                ((f.tracks[t as int].cc + 15) % 16) as u8,
                f.programs[p].discontinuity,
                base,
                ext,
            );
            lemma_put_refilled(f, packet, d);
        },
    }
}

proof fn lemma_chain_refilled(f: FlowView, plan: PlanView, p: int, target: int, d: Seq<u8>)
    ensures
        f.refilled(d).chain_put(plan, p, target) == f.chain_put(plan, p, target).refilled(d),
    decreases
            (if f.programs[p].last_pcr is Some {
                target - f.programs[p].last_pcr->0
            } else {
                0
            }),
{
    match f.programs[p].last_pcr {
        None => {},
        Some(last) => if target - last <= PCR_MAX_INTERVAL_90K || !(0 <= p < f.programs.len())
            || target > i64::MAX {
        } else {
            let next = (last + PCR_STEP_90K) as i64;
            let base = ring(if next > 0 { next } else { 0 });
            let a = f.pcr_put(plan, p, base, 0);
            lemma_pcr_refilled(f, plan, p, base, 0, d);
            let b = a.with_last_pcr(p, next);
            assert(a.refilled(d).with_last_pcr(p, next) == b.refilled(d));
            assert(b.programs[p].last_pcr == Some(next));
            lemma_chain_refilled(b, plan, p, target, d);
        },
    }
}

proof fn lemma_clocks_refilled(f: FlowView, plan: PlanView, n: int, d: Seq<u8>)
    ensures
        f.refilled(d).clocks_put(plan, n) == f.clocks_put(plan, n).refilled(d),
    decreases n,
{
    if n > 0 {
        lemma_clocks_refilled(f, plan, n - 1, d);
        let a = f.clocks_put(plan, n - 1);
        assert(a.refilled(d).pos() == a.pos());
        if a.anchored() && a.pcr_due(n - 1) {
            let (base, ext) = a.pcr_now();
            lemma_pcr_refilled(a, plan, n - 1, base, ext, d);
            let b = a.pcr_put(plan, n - 1, base, ext);
            assert(b.refilled(d).with_pcr_at(n - 1, a.pos()) == b.with_pcr_at(
                n - 1,
                a.pos(),
            ).refilled(d));
        }
    }
}

proof fn lemma_packet_refilled(
    f: FlowView,
    plan: PlanView,
    t: int,
    riders: Riders,
    start: bool,
    run: Option<int>,
    rest: Seq<u8>,
    d: Seq<u8>,
)
    ensures
        f.refilled(d).packet_put(plan, t, riders, start, run, rest) == f.packet_put(
            plan,
            t,
            riders,
            start,
            run,
            rest,
        ).refilled(d),
        f.refilled(d).packet_field(plan, t, riders, start, run, rest.len() as int)
            == f.packet_field(plan, t, riders, start, run, rest.len() as int),
{
    assert(f.refilled(d).pos() == f.pos());
    let field = f.packet_field(plan, t, riders, start, run, rest.len() as int);
    assert(f.refilled(d).packet_field(plan, t, riders, start, run, rest.len() as int) == field);
    lemma_put_refilled(
        f,
        crate::muxer::packets::pes_packet(
            plan.tracks[t].pid,
            f.tracks[t].cc,
            start,
            field,
            rest,
        ),
        d,
    );
}

proof fn lemma_rest_refilled(
    f: FlowView,
    plan: PlanView,
    t: int,
    riders: Riders,
    start: bool,
    run: Option<int>,
    rest: Seq<u8>,
    d: Seq<u8>,
)
    ensures
        f.refilled(d).rest_put(plan, t, riders, start, run, rest) == f.rest_put(
            plan,
            t,
            riders,
            start,
            run,
            rest,
        ).refilled(d),
    decreases rest.len(),
{
    let a = f.paced_for(plan, t);
    let left = rest.len() as int;
    lemma_tb_paced_refilled(f, plan.tracks[t].pid, AUDIO_TB_RX as int, d);
    assert(f.refilled(d).paced_for(plan, t) == a.refilled(d));
    lemma_packet_refilled(a, plan, t, riders, start, run, rest, d);
    let n = pes_take(a.packet_field(plan, t, riders, start, run, left), left);
    if !(left == 0 || n <= 0 || n > left) {
        assert(a.refilled(d).pos() == a.pos());
        assert(a.refilled(d).run_after(plan, t, riders, start, run, left) == a.run_after(
            plan,
            t,
            riders,
            start,
            run,
            left,
        ));
        lemma_rest_refilled(
            a.packet_put(plan, t, riders, start, run, rest),
            plan,
            t,
            riders,
            false,
            a.run_after(plan, t, riders, start, run, left),
            rest.skip(n),
            d,
        );
    }
}

proof fn lemma_frame_refilled(
    f: FlowView,
    plan: PlanView,
    t: int,
    riders: Riders,
    packets: Seq<Seq<u8>>,
    n: int,
    d: Seq<u8>,
)
    ensures
        f.refilled(d).frame_put(plan, t, riders, packets, n) == f.frame_put(
            plan,
            t,
            riders,
            packets,
            n,
        ).refilled(d),
    decreases n,
{
    if n > 0 {
        lemma_frame_refilled(f, plan, t, riders, packets, n - 1, d);
        let a = f.frame_put(plan, t, riders, packets, n - 1);
        let mine = riders_for(riders, n - 1, packets.len() - 1);
        let pes = packets[n - 1];
        match mine.splice {
            None => {
                lemma_rest_refilled(a, plan, t, mine, true, None, pes, d);
            },
            Some(s) => {
                let b = a.with_after_splice(t, None);
                assert(a.refilled(d).with_after_splice(t, None) == b.refilled(d));
                lemma_rest_refilled(b, plan, t, mine, true, None, pes, d);
                let c = b.rest_put(plan, t, mine, true, None, pes);
                let x = Some((1u8, s.post_splice_packets));
                assert(c.refilled(d).with_after_splice(t, x) == c.with_after_splice(
                    t,
                    x,
                ).refilled(d));
            },
        }
    }
}

proof fn lemma_sent_refilled(
    f: FlowView,
    plan: PlanView,
    t: int,
    pkt: PacketView,
    paced: bool,
    d: Seq<u8>,
)
    ensures
        f.refilled(d).sent(plan, t, pkt, paced) == refilled_outcome(
            f.sent(plan, t, pkt, paced),
            d,
        ),
{
    reveal(FlowView::sent);
    let track = plan.tracks[t];
    let p = track.program as int;
    let own = track.pid == plan.programs[p].pcr_pid;
    let b = f.pcrs_before(plan, t, pkt.pts, paced);
    if pkt.pts is Some {
        let x = guarded(pkt.pts->0);
        lemma_chain_refilled(f, plan, p, x as int, d);
        lemma_pcr_refilled(f, plan, p, ring(x), 0, d);
        let a = f.pcr_put(plan, p, ring(x), 0);
        assert(a.refilled(d).with_last_pcr(p, x) == a.with_last_pcr(p, x).refilled(d));
    }
    assert(f.refilled(d).pcrs_before(plan, t, pkt.pts, paced) == b.refilled(d));
    if frame_error(track.stream_id, pkt.pts, pkt.dts, pkt.data.len() as int) is None {
        let packets = frame_packets(track.stream_id, pkt.pts, pkt.dts, pkt.data);
        let inline = own && pkt.pts is Some;
        let c = if inline { b.with_last_pcr(p, guarded(pkt.pts->0)) } else { b };
        let riders = Riders {
            pcr: if inline { Some((ring(guarded(pkt.pts->0)), 0u16)) } else { None },
            random_access: pkt.keyframe && (!own || inline),
            splice: c.tracks[t].splice,
        };
        let e = c.splice_taken(t);
        let c2 = if inline {
            b.refilled(d).with_last_pcr(p, guarded(pkt.pts->0))
        } else {
            b.refilled(d)
        };
        assert(c2 == c.refilled(d));
        assert(c.refilled(d).splice_taken(t) == e.refilled(d));
        lemma_frame_refilled(e, plan, t, riders, packets, packets.len() as int, d);
    }
}

proof fn lemma_idled_refilled(f: FlowView, plan: PlanView, target: int, fuel: nat, d: Seq<u8>)
    ensures
        f.refilled(d).idled(plan, target, fuel) == f.idled(plan, target, fuel).refilled(d),
    decreases fuel,
{
    assert(f.refilled(d).pos() == f.pos());
    if fuel > 0 && f.now() < target {
        let n = plan.programs.len() as int;
        lemma_clocks_refilled(f, plan, n, d);
        let a = f.clocks_put(plan, n);
        lemma_put_refilled(a, null_packet(), d);
        lemma_idled_refilled(a.put(null_packet()), plan, target, (fuel - 1) as nat, d);
    }
}

proof fn lemma_started_refilled(f: FlowView, target: int, d: Seq<u8>)
    requires
        f.pacer is Some,
    ensures
        f.refilled(d).clock_started(target) == f.clock_started(target).refilled(d),
        f.refilled(d).clock_started(target).waits(target) == f.clock_started(target).waits(target),
{
    assert(f.refilled(d).pos() == f.pos());
    assert(f.clock_started(target).refilled(d).pos() == f.clock_started(target).pos());
}

proof fn lemma_held_refilled(f: FlowView, plan: PlanView, t: int, pkt: PacketView, d: Seq<u8>)
    ensures
        f.refilled(d).delivered_held(plan, t, pkt) == refilled_outcome(
            f.delivered_held(plan, t, pkt),
            d,
        ),
{
    match decode_time(pkt) {
        Some(x) if f.pacer is Some => {
            let target = ticks_27(x) - lead_of(plan.tracks[t].is_video);
            lemma_started_refilled(f, target, d);
            let a = f.clock_started(target);
            let n = plan.programs.len() as int;
            lemma_idled_refilled(a, plan, target, a.waits(target), d);
            let b = a.idled(plan, target, a.waits(target));
            assert(b.refilled(d).pos() == b.pos());
            lemma_clocks_refilled(b, plan, n, d);
            lemma_sent_refilled(b.clocks_put(plan, n), plan, t, pkt, true, d);
        },
        _ => {
            lemma_sent_refilled(f, plan, t, pkt, f.anchored(), d);
        },
    }
}

proof fn lemma_flushed_refilled(
    f: FlowView,
    plan: PlanView,
    horizon: int,
    fuel: nat,
    d: Seq<u8>,
)
    ensures
        f.refilled(d).flushed(plan, horizon, fuel) == refilled_outcome(
            f.flushed(plan, horizon, fuel),
            d,
        ),
    decreases fuel,
{
    let held = f.pacer->0.held;
    match first_due(held, held.len() as int) {
        Some(t) if f.pacer is Some && fuel > 0 && held_due(held[t][0]) <= horizon => {
            let a = f.popped(t);
            assert(f.refilled(d).popped(t) == a.refilled(d));
            lemma_held_refilled(a, plan, t, held[t][0], d);
            let o = a.delivered_held(plan, t, held[t][0]);
            if o.error is None {
                lemma_flushed_refilled(o.flow, plan, horizon, (fuel - 1) as nat, d);
            }
        },
        _ => {},
    }
}

proof fn lemma_waited_refilled(f: FlowView, plan: PlanView, target: int, fuel: nat, d: Seq<u8>)
    ensures
        f.refilled(d).waited(plan, target, fuel) == refilled_outcome(
            f.waited(plan, target, fuel),
            d,
        ),
    decreases fuel,
{
    assert(f.refilled(d).pos() == f.pos());
    if fuel > 0 && f.now() < target {
        lemma_flushed_refilled(f, plan, f.now(), held_count(f.pacer->0.held), d);
        let o = f.flushed_all(plan, f.now());
        let b = o.flow;
        assert(b.refilled(d).pos() == b.pos());
        if o.error is None && b.now() < target {
            let n = plan.programs.len() as int;
            lemma_clocks_refilled(b, plan, n, d);
            let c = b.clocks_put(plan, n);
            lemma_put_refilled(c, null_packet(), d);
            lemma_waited_refilled(c.put(null_packet()), plan, target, (fuel - 1) as nat, d);
        }
    }
}

proof fn lemma_delivered_refilled(f: FlowView, plan: PlanView, t: int, pkt: PacketView, d: Seq<u8>)
    ensures
        f.refilled(d).delivered(plan, t, pkt) == refilled_outcome(f.delivered(plan, t, pkt), d),
{
    match decode_time(pkt) {
        Some(x) if f.pacer is Some => {
            let target = ticks_27(x) - lead_of(plan.tracks[t].is_video);
            lemma_started_refilled(f, target, d);
            let a = f.clock_started(target);
            let n = plan.programs.len() as int;
            lemma_waited_refilled(a, plan, target, a.waits(target), d);
            let o = a.waited(plan, target, a.waits(target));
            let b = o.flow;
            assert(b.refilled(d).pos() == b.pos());
            if o.error is None && b.now() <= ticks_27(x) {
                let horizon = b.now() + b.wire_time(pkt.data.len() as int);
                lemma_flushed_refilled(b, plan, horizon, held_count(b.pacer->0.held), d);
                let c = b.flushed_all(plan, horizon).flow;
                lemma_clocks_refilled(c, plan, n, d);
                lemma_sent_refilled(c.clocks_put(plan, n), plan, t, pkt, true, d);
            }
        },
        _ => {
            lemma_sent_refilled(f, plan, t, pkt, f.anchored(), d);
        },
    }
}

proof fn lemma_released_refilled(f: FlowView, plan: PlanView, fuel: nat, d: Seq<u8>)
    ensures
        f.refilled(d).released(plan, fuel) == refilled_outcome(f.released(plan, fuel), d),
    decreases fuel,
{
    let held = f.pacer->0.held;
    match first_due(held, held.len() as int) {
        Some(t) if f.pacer is Some && fuel > 0 => {
            let a = f.popped(t);
            assert(f.refilled(d).popped(t) == a.refilled(d));
            lemma_held_refilled(a, plan, t, held[t][0], d);
            let o = a.delivered_held(plan, t, held[t][0]);
            if o.error is None {
                lemma_released_refilled(o.flow, plan, (fuel - 1) as nat, d);
            }
        },
        _ => {},
    }
}

impl MuxView {
    /// As if `d`, which was taken out, were still there.
    pub open spec fn refilled(self, d: Seq<u8>) -> MuxView {
        self.with_flow(self.flow.refilled(d))
    }
}

/// What came of a call, as if `d` were still there.
pub open spec fn refilled_call(o: MuxOutcome, d: Seq<u8>) -> MuxOutcome {
    MuxOutcome { mux: o.mux.refilled(d), error: o.error }
}

/// Header and repeated tables are the same whatever was taken out before.
pub proof fn lemma_tables_after_taking(m: MuxView, pts: i64, d: Seq<u8>)
    ensures
        m.refilled(d).tables_written() == m.tables_written().refilled(d),
        m.refilled(d).tables_repeated(pts) == m.tables_repeated(pts).refilled(d),
{
    assert(m.flow.refilled(d).pos() == m.flow.pos());
    lemma_tables_refilled(m.flow, m.plan, m.plan.tables.len() as int, d);
}

/// A frame is written the same whatever was taken out before.
pub proof fn lemma_frame_after_taking(m: MuxView, pkt: PacketView, d: Seq<u8>)
    ensures
        m.refilled(d).packet_written(pkt) == refilled_call(m.packet_written(pkt), d),
{
    match track_for_index(m.plan, pkt.stream_index, 0) {
        Some(t) if m.header_written => {
            let a = match pkt.pts {
                Some(x) => m.tables_repeated(x),
                None => m,
            };
            if pkt.pts is Some {
                lemma_tables_after_taking(m, pkt.pts->0, d);
            }
            if a.flow.anchored() && !m.plan.tracks[t].is_video && pkt.pts is Some {
                let h = a.flow.holding(t, pkt);
                assert(a.flow.refilled(d).holding(t, pkt) == h.refilled(d));
                assert(h.refilled(d).pos() == h.pos());
                lemma_flushed_refilled(h, m.plan, h.now(), held_count(h.pacer->0.held), d);
            } else {
                lemma_delivered_refilled(a.flow, m.plan, t, pkt, d);
            }
        },
        _ => {},
    }
}

/// The end of the stream is the same whatever was taken out before.
pub proof fn lemma_trailer_after_taking(m: MuxView, d: Seq<u8>)
    ensures
        m.refilled(d).trailer_written() == refilled_call(m.trailer_written(), d),
{
    lemma_released_refilled(m.flow, m.plan, held_count(m.flow.pacer->0.held), d);
    let o = m.flow.released_all(m.plan);
    lemma_tables_after_taking(m.with_flow(o.flow), 0, d);
}

/// Splicing points and breaks of the time base are the same whatever was taken
/// out before.
pub proof fn lemma_signals_after_taking(
    m: MuxView,
    index: u32,
    spec: SpliceSpec,
    number: u16,
    d: Seq<u8>,
)
    ensures
        m.refilled(d).splice_armed(index, spec) == refilled_call(m.splice_armed(index, spec), d),
        m.refilled(d).discontinuity_armed(number) == refilled_call(
            m.discontinuity_armed(number),
            d,
        ),
{
    if program_for(m.plan, number, 0) is Some {
        lemma_released_refilled(m.flow, m.plan, held_count(m.flow.pacer->0.held), d);
    }
}

/// A call on a multiplexer.
pub enum Call {
    /// A rate for the output, or none.
    Rate(Option<u64>),
    /// An interval for the tables, or none.
    Interval(Option<i64>),
    /// The header.
    Header,
    /// A frame.
    Frame(PacketView),
    /// A splicing point.
    Splice(u32, SpliceSpec),
    /// A break of the time base.
    Break(u16),
    /// The end of the stream.
    Trailer,
    /// The output is taken out.
    Take,
}

/// A multiplexer after some calls, what was taken out, and what each call
/// answered.
#[verifier::ext_equal]
pub struct Played {
    /// The state.
    pub mux: MuxView,
    /// What was taken out.
    pub taken: Seq<u8>,
    /// The answers.
    pub answers: Seq<Option<MuxError>>,
}

/// The state and the answer after call `c`, which takes nothing out.
pub open spec fn called(m: MuxView, c: Call) -> MuxOutcome {
    match c {
        Call::Rate(rate) => MuxOutcome { mux: m.rate_set(rate), error: None },
        Call::Interval(ticks) => MuxOutcome {
            mux: MuxView { psi_repetition: ticks, ..m },
            error: None,
        },
        Call::Header => MuxOutcome {
            mux: MuxView { header_written: true, ..m.tables_written() },
            error: None,
        },
        Call::Frame(pkt) => m.packet_written(pkt),
        Call::Splice(index, spec) => m.splice_armed(index, spec),
        Call::Break(number) => m.discontinuity_armed(number),
        Call::Trailer => m.trailer_written(),
        Call::Take => MuxOutcome { mux: m, error: None },
    }
}

/// After the calls `cs`; the output is taken out where they say so if `taking`.
/// It is taken out only as long as the total fits 64 bits.
pub open spec fn played(m: MuxView, cs: Seq<Call>, taking: bool) -> Played
    decreases cs.len(),
{
    if cs.len() == 0 {
        Played { mux: m, taken: Seq::empty(), answers: Seq::empty() }
    } else {
        let a = played(m, cs.drop_last(), taking);
        let o = called(a.mux, cs.last());
        let takes = taking && cs.last() is Take && o.mux.flow.pos() <= u64::MAX;
        Played {
            mux: if takes {
                o.mux.with_flow(
                    FlowView {
                        out: Seq::empty(),
                        drained: o.mux.flow.pos(),
                        ..o.mux.flow
                    },
                )
            } else {
                o.mux
            },
            taken: if takes { a.taken + o.mux.flow.out } else { a.taken },
            answers: a.answers.push(o.error),
        }
    }
}

/// Any call is the same whatever was taken out before.
pub proof fn lemma_call_after_taking(m: MuxView, c: Call, d: Seq<u8>)
    ensures
        called(m.refilled(d), c) == refilled_call(called(m, c), d),
{
    match c {
        Call::Rate(_) => {
            assert(m.flow.refilled(d).pos() == m.flow.pos());
        },
        Call::Interval(_) => {},
        Call::Header => {
            lemma_tables_after_taking(m, 0, d);
        },
        Call::Frame(pkt) => {
            lemma_frame_after_taking(m, pkt, d);
        },
        Call::Splice(index, spec) => {
            lemma_signals_after_taking(m, index, spec, 0, d);
        },
        Call::Break(number) => {
            lemma_signals_after_taking(
                m,
                0,
                SpliceSpec { seamless: None, post_splice_packets: 0 },
                number,
                d,
            );
        },
        Call::Trailer => {
            lemma_trailer_after_taking(m, d);
        },
        Call::Take => {},
    }
}

/// Taking the output out, as often as one likes, changes nothing: what was taken
/// out and what is left, joined, is what the same calls write without it, and
/// every call answers the same.
pub proof fn lemma_joined_output(m: MuxView, cs: Seq<Call>)
    ensures
        ({
            let a = played(m, cs, true);
            let b = played(m, cs, false);
            &&& a.mux.refilled(a.taken) == b.mux
            &&& a.taken + a.mux.flow.out == b.mux.flow.out
            &&& a.answers == b.answers
        }),
    decreases cs.len(),
{
    let a = played(m, cs, true);
    let b = played(m, cs, false);
    if cs.len() == 0 {
        assert(Seq::<u8>::empty() + m.flow.out =~= m.flow.out);
    } else {
        lemma_joined_output(m, cs.drop_last());
        let x = played(m, cs.drop_last(), true);
        lemma_call_after_taking(x.mux, cs.last(), x.taken);
        let o = called(x.mux, cs.last());
        if cs.last() is Take && o.mux.flow.pos() <= u64::MAX {
            assert(x.taken + o.mux.flow.out + Seq::<u8>::empty() =~= x.taken + o.mux.flow.out);
        }
        assert(a.mux.refilled(a.taken) == b.mux);
    }
}

} // verus!
