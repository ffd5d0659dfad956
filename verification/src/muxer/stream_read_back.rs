//! What a call to the multiplexer writes is read back.
use vstd::prelude::*;

use crate::muxer::emit::{guarded, PCR_MAX_INTERVAL_90K, PCR_STEP_90K};
use crate::muxer::flow::{FlowView, PacketView, PlanView, Slot, SYS_TB_KEY, SYS_TB_RX};
use crate::muxer::frame::Riders;
use crate::muxer::frame_read_back::{
    frame_units, gains, hands_out, is_ready, lemma_frame_parses, lemma_frame_put_read_back,
    reads_as_units,
};
use crate::muxer::packets::{pcr_packet, psi_packet, psi_take};
use crate::muxer::pes::{frame_error, frame_packets, lemma_ring_bound, ring};
use crate::muxer::read_back::{
    counted_on, lemma_bsys_paced_pads, lemma_counted_on_goes_on, lemma_empty_packets_count,
    lemma_packets_on_put, lemma_pcr_packet_read_back, lemma_psi_packet_read_back,
    lemma_tb_paced_pads, packets_on,
};
use crate::packet::parse::{parse_packet_spec, TsPacketView};
use crate::pes::parse::PesPacketView;
use crate::pes::reassemble::{is_quiet, lemma_quiet_ignored, lemma_read_goes_on, Reassembly};
use crate::validate::discovery::NULL_PID;

verus! {

/// Packets that carry nothing for a reassembly.
pub open spec fn are_quiet(ps: Seq<TsPacketView>) -> bool {
    forall|i: int| 0 <= i < ps.len() ==> is_quiet(#[trigger] ps[i])
}

/// The PIDs of program `p` fit their fields.
pub open spec fn has_pcr_pid(plan: PlanView, p: int) -> bool {
    0 <= p < plan.programs.len() && plan.programs[p].pcr_pid < 0x2000
}

/// The packets `qs` of PID `q` carry nothing for a reassembly, and repeat the
/// last counter of the stream whose PID the clock references of program `p` are
/// on.
pub open spec fn only_clocks(
    qs: Seq<TsPacketView>,
    f: FlowView,
    plan: PlanView,
    p: int,
    q: u16,
) -> bool {
    &&& are_quiet(qs)
    &&& qs.len() > 0 ==> q == plan.programs[p].pcr_pid && (plan.programs[p].pcr_track matches Some(
        t,
    ) && forall|i: int|
        0 <= i < qs.len() ==> (#[trigger] qs[i]).continuity_counter == (f.tracks[t as int].cc + 15)
            % 16)
}

proof fn lemma_more_clocks(
    a: Seq<TsPacketView>,
    b: Seq<TsPacketView>,
    f: FlowView,
    g: FlowView,
    plan: PlanView,
    p: int,
    q: u16,
)
    requires
        g.tracks == f.tracks,
        only_clocks(a, f, plan, p, q),
        only_clocks(b, g, plan, p, q),
    ensures
        only_clocks(a + b, f, plan, p, q),
{
    assert forall|i: int| 0 <= i < (a + b).len() implies is_quiet(#[trigger] (a + b)[i]) by {
        if i < a.len() {
            assert((a + b)[i] == a[i]);
        } else {
            assert((a + b)[i] == b[i - a.len()]);
        }
    }
}

/// A standalone clock reference carries nothing for a reassembly of any PID.
pub proof fn lemma_pcr_put_quiet(
    f: FlowView,
    plan: PlanView,
    p: int,
    base: u64,
    ext: u16,
    q: u16,
) -> (qs: Seq<TsPacketView>)
    requires
        has_pcr_pid(plan, p),
        base <= 0x1_FFFF_FFFF,
        ext <= 0x1FF,
    ensures
        packets_on(f.pcr_put(plan, p, base, ext).out, q) == packets_on(f.out, q) + qs,
        only_clocks(qs, f, plan, p, q),
        f.pcr_put(plan, p, base, ext).tracks == f.tracks,
{
    let none = Seq::<TsPacketView>::empty();
    assert(packets_on(f.out, q) + none =~= packets_on(f.out, q));
    match plan.programs[p].pcr_track {
        None => none,
        Some(t) => {
            let cc = ((f.tracks[t as int].cc + 15) % 16) as u8;
            let d = f.programs[p].discontinuity;
            let pid = plan.programs[p].pcr_pid;
            let packet = pcr_packet(pid, cc, d, base, ext);
            lemma_pcr_packet_read_back(pid, cc, d, base, ext);
            lemma_packets_on_put(f.out, packet, q);
            let v = parse_packet_spec(packet)->Ok_0;
            assert(is_quiet(v));
            if pid == q {
                assert(packets_on(f.out, q).push(v) =~= packets_on(f.out, q) + seq![v]);
                seq![v]
            } else {
                none
            }
        },
    }
}

/// Clock references that fill a gap carry nothing for a reassembly of any PID.
pub proof fn lemma_chain_put_quiet(f: FlowView, plan: PlanView, p: int, target: int, q: u16) -> (qs:
    Seq<TsPacketView>)
    requires
        has_pcr_pid(plan, p),
    ensures
        packets_on(f.chain_put(plan, p, target).out, q) == packets_on(f.out, q) + qs,
        only_clocks(qs, f, plan, p, q),
        f.chain_put(plan, p, target).tracks == f.tracks,
    decreases
            (if f.programs[p].last_pcr is Some {
                target - f.programs[p].last_pcr->0
            } else {
                0
            }),
{
    let none = Seq::<TsPacketView>::empty();
    assert(packets_on(f.out, q) + none =~= packets_on(f.out, q));
    match f.programs[p].last_pcr {
        None => none,
        Some(last) => if target - last <= PCR_MAX_INTERVAL_90K || !(0 <= p < f.programs.len())
            || target > i64::MAX {
            none
        } else {
            let next = (last + PCR_STEP_90K) as i64;
            let x: i64 = if next > 0 { next } else { 0 };
            lemma_ring_bound(x);
            let a = lemma_pcr_put_quiet(f, plan, p, ring(x), 0, q);
            let g = f.pcr_put(plan, p, ring(x), 0).with_last_pcr(p, next);
            assert(g.programs[p].last_pcr == Some(next));
            let b = lemma_chain_put_quiet(g, plan, p, target, q);
            lemma_more_clocks(a, b, f, g, plan, p, q);
            assert(packets_on(f.out, q) + a + b =~= packets_on(f.out, q) + (a + b));
            a + b
        },
    }
}

/// The clock references before a frame carry nothing for a reassembly of any
/// PID.
pub(crate) proof fn lemma_pcrs_before_quiet(
    f: FlowView,
    plan: PlanView,
    t: int,
    pts: Option<i64>,
    paced: bool,
    q: u16,
) -> (qs: Seq<TsPacketView>)
    requires
        0 <= t < plan.tracks.len(),
        has_pcr_pid(plan, plan.tracks[t].program as int),
    ensures
        packets_on(f.pcrs_before(plan, t, pts, paced).out, q) == packets_on(f.out, q) + qs,
        only_clocks(qs, f, plan, plan.tracks[t].program as int, q),
        f.pcrs_before(plan, t, pts, paced).tracks == f.tracks,
{
    let none = Seq::<TsPacketView>::empty();
    assert(packets_on(f.out, q) + none =~= packets_on(f.out, q));
    let track = plan.tracks[t];
    let p = track.program as int;
    let own = track.pid == plan.programs[p].pcr_pid;
    match pts {
        None => none,
        Some(x) => if own {
            if f.pacer is None {
                lemma_chain_put_quiet(f, plan, p, guarded(x) as int, q)
            } else {
                none
            }
        } else if paced {
            none
        } else {
            match f.programs[p].last_pcr {
                None => {
                    lemma_ring_bound(guarded(x));
                    lemma_pcr_put_quiet(f, plan, p, ring(guarded(x)), 0, q)
                },
                Some(_) => lemma_chain_put_quiet(f, plan, p, guarded(x) as int, q),
            }
        },
    }
}

/// Packets that carry nothing, before a frame, do not matter.
proof fn lemma_quiet_before(
    s: Reassembly,
    qs: Seq<TsPacketView>,
    ps: Seq<TsPacketView>,
    units: Seq<PesPacketView>,
)
    requires
        are_quiet(qs),
        hands_out(s, ps, units),
    ensures
        hands_out(s, qs + ps, units),
{
    reveal(hands_out);
    lemma_quiet_ignored(s, qs);
    lemma_read_goes_on(s, qs, ps);
    assert(s.read(qs + ps).units =~= s.read(ps).units);
}

/// The mark that a frame gets: a keyframe's, but on the PCR PID only where the
/// PCR goes along.
pub open spec fn mark_of(plan: PlanView, t: int, pkt: PacketView) -> bool {
    let p = plan.tracks[t].program as int;
    pkt.keyframe && (plan.tracks[t].pid != plan.programs[p].pcr_pid || pkt.pts is Some)
}

/// The PES packets that frame `pkt` of stream `t` is read back as.
pub open spec fn units_of(plan: PlanView, t: int, pkt: PacketView) -> Seq<PesPacketView> {
    frame_units(plan.tracks[t].stream_id, pkt.pts, pkt.dts, pkt.data, mark_of(plan, t, pkt))
}

/// Stream `t` has its PID for itself: clock references on it are those that go
/// with the stream.
pub open spec fn owns_pid(plan: PlanView, t: int) -> bool {
    let p = plan.tracks[t].program as int;
    plan.programs[p].pcr_pid == plan.tracks[t].pid ==> (plan.programs[p].pcr_track matches Some(x)
        ==> x == t)
}

/// A frame that is sent is read back: a reassembler fed with what comes on the
/// PID of its stream hands out the PES packets of the frame, whatever else goes
/// along, and the counters there count on.
pub proof fn lemma_sent_read_back(
    f: FlowView,
    plan: PlanView,
    t: int,
    pkt: PacketView,
    paced: bool,
    s: Reassembly,
) -> (ps: Seq<TsPacketView>)
    requires
        plan.wf(),
        0 <= t < plan.tracks.len(),
        f.tracks.len() == plan.tracks.len(),
        f.tracks[t].wf(),
        plan.tracks[t].pid < 0x1FFF,
        has_pcr_pid(plan, plan.tracks[t].program as int),
        frame_error(plan.tracks[t].stream_id, pkt.pts, pkt.dts, pkt.data.len() as int) is None,
        is_ready(s),
    ensures
        f.sent(plan, t, pkt, paced).error is None,
        packets_on(f.sent(plan, t, pkt, paced).flow.out, plan.tracks[t].pid) == packets_on(
            f.out,
            plan.tracks[t].pid,
        ) + ps,
        hands_out(s, ps, units_of(plan, t, pkt)),
        owns_pid(plan, t) ==> counted_on(ps, f.tracks[t].cc) == Some(
            f.sent(plan, t, pkt, paced).flow.tracks[t].cc,
        ),
{
    reveal(FlowView::sent);
    let track = plan.tracks[t];
    let pid = track.pid;
    let p = track.program as int;
    let own = pid == plan.programs[p].pcr_pid;
    let qs = lemma_pcrs_before_quiet(f, plan, t, pkt.pts, paced, pid);
    let b = f.pcrs_before(plan, t, pkt.pts, paced);
    let inline = own && pkt.pts is Some;
    if inline {
        lemma_ring_bound(guarded(pkt.pts->0));
    }
    let c = if inline { b.with_last_pcr(p, guarded(pkt.pts->0)) } else { b };
    let riders = Riders {
        pcr: if inline { Some((ring(guarded(pkt.pts->0)), 0u16)) } else { None },
        random_access: pkt.keyframe && (!own || inline),
        splice: c.tracks[t].splice,
    };
    assert(riders.wf());
    let d = c.splice_taken(t);
    let packets = frame_packets(track.stream_id, pkt.pts, pkt.dts, pkt.data);
    let units = units_of(plan, t, pkt);
    lemma_frame_parses(track.stream_id, pkt.pts, pkt.dts, pkt.data, riders.random_access);
    let n = packets.len() as int;
    let ps = lemma_frame_put_read_back(d, plan, t, riders, packets, units, n, s);
    assert(units.len() == n) by {
        reveal(reads_as_units);
    }
    assert(units.take(n) =~= units);
    let g = d.frame_put(plan, t, riders, packets, n);
    assert(packets_on(g.out, pid) == packets_on(d.out, pid) + ps && counted_on(ps, f.tracks[t].cc)
        == Some(g.tracks[t].cc)) by {
        reveal(gains);
    }
    if owns_pid(plan, t) {
        assert forall|i: int| 0 <= i < qs.len() implies (#[trigger] qs[i]).payload.len() == 0
            && qs[i].continuity_counter == (f.tracks[t].cc + 15) % 16 by {
            assert(is_quiet(qs[i]));
        }
        lemma_empty_packets_count(qs, f.tracks[t].cc);
        lemma_counted_on_goes_on(qs, ps, f.tracks[t].cc);
    }
    lemma_quiet_before(s, qs, ps, units);
    assert(packets_on(f.out, pid) + qs + ps =~= packets_on(f.out, pid) + (qs + ps));
    qs + ps
}

/// There is such a counter, and it has four bits.
pub open spec fn counts(f: FlowView, slot: Slot) -> bool {
    &&& f.counter(slot) < 16
    &&& slot matches Slot::Pmt(p) ==> p < f.pmt_cc.len()
}

/// A section on one PID leaves every other PID alone.
pub proof fn lemma_section_elsewhere(
    f: FlowView,
    pid: u16,
    slot: Slot,
    key: u16,
    rest: Seq<u8>,
    start: bool,
    q: u16,
)
    requires
        pid < 0x2000,
        q != pid,
        q != NULL_PID,
        counts(f, slot),
    ensures
        counts(f.section_put(pid, slot, key, rest, start), slot),
        packets_on(f.section_put(pid, slot, key, rest, start).out, q) == packets_on(f.out, q),
        f.section_put(pid, slot, key, rest, start).tracks == f.tracks,
        f.section_put(pid, slot, key, rest, start).programs == f.programs,
        f.pacer is None ==> f.section_put(pid, slot, key, rest, start).pacer is None,
    decreases rest.len() + (if start { 1int } else { 0 }),
{
    if start || rest.len() > 0 {
        let a = f.tb_paced(key, SYS_TB_RX as int);
        let b = if key == SYS_TB_KEY { a.bsys_paced() } else { a };
        lemma_tb_paced_pads(f, key, SYS_TB_RX as int, q);
        lemma_bsys_paced_pads(a, q);
        let cc = b.counter(slot);
        let packet = psi_packet(pid, cc, start, rest);
        let c = b.put(packet).count_table(slot);
        lemma_psi_packet_read_back(pid, cc, start, rest);
        lemma_packets_on_put(b.out, packet, q);
        lemma_section_elsewhere(
            c,
            pid,
            slot,
            key,
            rest.skip(psi_take(start, rest.len() as int)),
            false,
            q,
        );
    }
}

} // verus!
