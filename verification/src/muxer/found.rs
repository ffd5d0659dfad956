//! What a validation finds of the programs in the output.
use vstd::prelude::*;

use crate::bytes::low13;
use crate::muxer::flow::{
    lemma_null_drains_bsys, lemma_null_drains_tb, FlowView, PlanView, Slot, AUDIO_TB_RX,
    BSYS_PACKET_SCALED, BSYS_SIZE_SCALED, SYS_TB_RX, TB_SIZE,
};
use crate::muxer::deliver::riders_for;
use crate::muxer::frame::Riders;
use crate::muxer::packets::{lemma_pes_packet_len, null_packet, pes_packet, psi_packet, psi_take};
use crate::muxer::read_back::{
    lemma_bsys_paced_pads, lemma_null_read_back, lemma_packet_field_fits, lemma_packets_on_put,
    lemma_pes_packet_read_back, lemma_psi_packet_read_back, lemma_step_read_back,
    lemma_tb_paced_pads, packets_on, stepped,
};
use crate::muxer::section_read_back::{
    collected, collected_clean, lemma_section_read_back, lemma_section_rest_read_back,
    lemma_section_step, section_ready,
};
use crate::muxer::stream_read_back::counts;
use crate::packet::parse::{parse_packet_spec, TsPacketView};
use crate::psi::assembler::{is_section, lemma_assembly_bounded, Assembly};
use crate::psi::entries::{loop_entries, LoopEntry};
use crate::psi::section::{section_body, section_error};
use crate::psi::tables::{pat_programs, pmt_error, pmt_loop, PAT_PID, PAT_TABLE_ID};
use crate::stream_type::is_audio_byte;
use crate::validate::discovery::{audio_with, pids_with, Discovery, NULL_PID};

verus! {

/// What the packets of `out` tell of the programs, counted from its end.
#[verifier::opaque]
pub open spec fn told(out: Seq<u8>) -> Discovery
    decreases out.len(),
{
    if out.len() < 188 {
        Discovery::start()
    } else {
        let n = out.len() - 188;
        match parse_packet_spec(out.skip(n)) {
            Ok(p) => told(out.take(n)).with_packet(p),
            Err(_) => told(out.take(n)),
        }
    }
}

/// What one more packet tells.
pub proof fn lemma_told_put(out: Seq<u8>, packet: Seq<u8>)
    requires
        packet.len() == 188,
        parse_packet_spec(packet) is Ok,
    ensures
        told(out + packet) == told(out).with_packet(parse_packet_spec(packet)->Ok_0),
{
    reveal_with_fuel(told, 2);
    let all = out + packet;
    assert(all.take(all.len() - 188) =~= out);
    assert(all.skip(all.len() - 188) =~= packet);
}

/// PID `q` is that of a PMT.
pub open spec fn is_map_pid(plan: PlanView, q: u16) -> bool {
    exists|p: int| 0 <= p < plan.programs.len() && (#[trigger] plan.programs[p]).pmt_pid == q
}

/// PID `q` is a PCR PID.
pub open spec fn is_clock_pid(plan: PlanView, q: u16) -> bool {
    exists|p: int| 0 <= p < plan.programs.len() && (#[trigger] plan.programs[p]).pcr_pid == q
}

/// PID `q` is that of an audio stream.
pub open spec fn is_audio_pid(plan: PlanView, q: u16) -> bool {
    exists|t: int|
        0 <= t < plan.tracks.len() && (#[trigger] plan.tracks[t]).pid == q && is_audio_byte(
            plan.tracks[t].stream_type,
        )
}

/// `s` is a PAT whose entries name PMTs of the layout.
pub open spec fn is_good_pat(s: Seq<u8>, plan: PlanView) -> bool {
    let pairs = pat_programs(section_body(s));
    &&& is_section(s)
    &&& section_error(s, PAT_TABLE_ID) is None
    &&& forall|i: int| 0 <= i < pairs.len() ==> is_map_pid(plan, (#[trigger] pairs[i]).1)
}

/// `s` is a PMT that names a PCR PID and streams of the layout.
pub open spec fn is_good_pmt(s: Seq<u8>, plan: PlanView) -> bool {
    let body = section_body(s);
    let es = loop_entries(pmt_loop(body), 5)->Ok_0;
    &&& is_section(s)
    &&& pmt_error(s) is None
    &&& is_clock_pid(plan, low13(body[0], body[1]))
    &&& forall|i: int|
        0 <= i < es.len() ==> (is_audio_byte((#[trigger] es[i]).head[0]) ==> is_audio_pid(
            plan,
            low13(es[i].head[1], es[i].head[2]),
        ))
}

/// The tables of the layout say what it is: PATs and PMTs are valid sections, on
/// PIDs that no stream has, and name nothing that is not there.
#[verifier::opaque]
pub open spec fn announced(plan: PlanView) -> bool {
    &&& forall|p: int|
        0 <= p < plan.programs.len() ==> (#[trigger] plan.programs[p]).pmt_pid < 0x1FFF
            && plan.programs[p].pmt_pid != PAT_PID
    &&& forall|t: int, p: int|
        0 <= t < plan.tracks.len() && 0 <= p < plan.programs.len() ==> (
        #[trigger] plan.tracks[t]).pid != (#[trigger] plan.programs[p]).pmt_pid
    &&& forall|t: int| 0 <= t < plan.tracks.len() ==> (#[trigger] plan.tracks[t]).pid != PAT_PID
    &&& forall|i: int|
        0 <= i < plan.tables.len() && (#[trigger] plan.tables[i]).pid == PAT_PID ==> is_good_pat(
            plan.tables[i].section,
            plan,
        )
    &&& forall|i: int|
        0 <= i < plan.tables.len() && is_map_pid(plan, (#[trigger] plan.tables[i]).pid)
            ==> is_good_pmt(plan.tables[i].section, plan)
}

/// What was told is no more than the layout: no section was bad, and every PID
/// named is what it was named for.
#[verifier::opaque]
pub open spec fn tells_true(d: Discovery, plan: PlanView) -> bool {
    &&& d.bad_sections == 0
    &&& d.pat.wf()
    &&& forall|q: u16| #[trigger] d.pmts.contains_key(q) ==> d.pmts[q].wf()
    &&& forall|q: u16| #[trigger] d.pmt_pids.contains(q) ==> is_map_pid(plan, q)
    &&& forall|i: int|
        0 <= i < d.pcr_pids.len() ==> is_clock_pid(plan, #[trigger] d.pcr_pids[i])
    &&& forall|q: u16| #[trigger] d.audio_pids.contains(q) ==> is_audio_pid(plan, q)
}

/// An output with nothing in it tells nothing.
pub proof fn lemma_nothing_told(out: Seq<u8>, plan: PlanView)
    requires
        out.len() == 0,
    ensures
        tells_true(told(out), plan),
{
    reveal(told);
    reveal(tells_true);
}

/// A packet that is neither of a PAT nor of a PMT tells nothing.
pub proof fn lemma_untold(out: Seq<u8>, packet: Seq<u8>, plan: PlanView)
    requires
        announced(plan),
        tells_true(told(out), plan),
        packet.len() == 188,
        parse_packet_spec(packet) is Ok,
        ({
            let p = parse_packet_spec(packet)->Ok_0;
            p.payload.len() == 0 || (p.pid != PAT_PID && !is_map_pid(plan, p.pid))
        }),
    ensures
        told(out + packet) == told(out),
{
    lemma_told_put(out, packet);
    reveal(tells_true);
}

/// A null packet tells nothing.
pub proof fn lemma_null_untold(out: Seq<u8>, plan: PlanView)
    requires
        announced(plan),
        tells_true(told(out), plan),
    ensures
        told(out + null_packet()) == told(out),
{
    lemma_null_read_back();
    assert(!is_map_pid(plan, NULL_PID)) by {
        reveal(announced);
    }
    lemma_untold(out, null_packet(), plan);
}

/// Waiting for room in a buffer tells nothing.
pub proof fn lemma_paced_untold(f: FlowView, key: u16, rx: int, plan: PlanView)
    requires
        announced(plan),
        tells_true(told(f.out), plan),
    ensures
        told(f.tb_paced(key, rx).out) == told(f.out),
    decreases f.pacer->0.tb_level(key, rx, f.pos()),
{
    if f.pacer is Some && rx > 0 {
        let p = f.pacer->0;
        let level = p.tb_level(key, rx, f.pos());
        if !(level + 188 * p.rate <= TB_SIZE * p.rate || level <= 0) {
            lemma_null_drains_tb(f, key, rx);
            lemma_null_untold(f.out, plan);
            lemma_paced_untold(f.with_tb(key, level).put(null_packet()), key, rx, plan);
        }
    }
}

/// Waiting for room in the system buffer tells nothing.
pub proof fn lemma_bsys_untold(f: FlowView, plan: PlanView)
    requires
        announced(plan),
        tells_true(told(f.out), plan),
    ensures
        told(f.bsys_paced().out) == told(f.out),
    decreases f.pacer->0.bsys_level(f.pos()),
{
    if f.pacer is Some {
        let p = f.pacer->0;
        let level = p.bsys_level(f.pos());
        if !(level + BSYS_PACKET_SCALED * p.rate <= BSYS_SIZE_SCALED * p.rate || level <= 0) {
            lemma_null_drains_bsys(f);
            lemma_null_untold(f.out, plan);
            lemma_bsys_untold(f.with_bsys(level).put(null_packet()), plan);
        }
    }
}

proof fn lemma_pids_true(pids: Set<u16>, pairs: Seq<(u16, u16)>, plan: PlanView)
    requires
        forall|q: u16| #[trigger] pids.contains(q) ==> is_map_pid(plan, q),
        forall|i: int| 0 <= i < pairs.len() ==> is_map_pid(plan, (#[trigger] pairs[i]).1),
    ensures
        forall|q: u16| #[trigger] pids_with(pids, pairs).contains(q) ==> is_map_pid(plan, q),
    decreases pairs.len(),
{
    if pairs.len() > 0 {
        assert forall|i: int| 0 <= i < pairs.drop_last().len() implies is_map_pid(
            plan,
            (#[trigger] pairs.drop_last()[i]).1,
        ) by {
            assert(pairs.drop_last()[i] == pairs[i]);
        }
        lemma_pids_true(pids, pairs.drop_last(), plan);
        let last = pairs[pairs.len() - 1];
        assert(is_map_pid(plan, last.1));
        assert forall|q: u16| #[trigger] pids_with(pids, pairs).contains(q) implies is_map_pid(
            plan,
            q,
        ) by {
            assert(pids_with(pids, pairs.drop_last()).contains(q) || q == last.1);
        }
    }
}

proof fn lemma_audio_true(pids: Set<u16>, es: Seq<LoopEntry>, plan: PlanView)
    requires
        forall|q: u16| #[trigger] pids.contains(q) ==> is_audio_pid(plan, q),
        forall|i: int|
            0 <= i < es.len() ==> (is_audio_byte((#[trigger] es[i]).head[0]) ==> is_audio_pid(
                plan,
                low13(es[i].head[1], es[i].head[2]),
            )),
    ensures
        forall|q: u16| #[trigger] audio_with(pids, es).contains(q) ==> is_audio_pid(plan, q),
    decreases es.len(),
{
    if es.len() > 0 {
        let prior = es.drop_last();
        assert forall|i: int| 0 <= i < prior.len() implies (is_audio_byte(
            (#[trigger] prior[i]).head[0],
        ) ==> is_audio_pid(plan, low13(prior[i].head[1], prior[i].head[2]))) by {
            assert(prior[i] == es[i]);
        }
        lemma_audio_true(pids, prior, plan);
        let e = es[es.len() - 1];
        let pid = low13(e.head[1], e.head[2]);
        assert(is_audio_byte(e.head[0]) ==> is_audio_pid(plan, pid));
        assert forall|q: u16| #[trigger] audio_with(pids, es).contains(q) implies is_audio_pid(
            plan,
            q,
        ) by {
            assert(audio_with(pids, prior).contains(q) || (is_audio_byte(e.head[0]) && q == pid));
        }
    }
}

/// A good PAT tells the truth.
proof fn lemma_pat_true(d: Discovery, s: Seq<u8>, plan: PlanView)
    requires
        tells_true(d, plan),
        is_good_pat(s, plan),
    ensures
        tells_true(d.with_pat(s), plan),
        d.with_pat(s).pat == d.pat,
{
    reveal(tells_true);
    lemma_pids_true(d.pmt_pids, pat_programs(section_body(s)), plan);
}

/// A good PMT tells the truth.
proof fn lemma_pmt_true(d: Discovery, s: Seq<u8>, plan: PlanView)
    requires
        tells_true(d, plan),
        is_good_pmt(s, plan),
    ensures
        tells_true(d.with_pmt(s), plan),
        d.with_pmt(s).pmts == d.pmts,
        d.with_pmt(s).pmt_pids == d.pmt_pids,
{
    reveal(tells_true);
    lemma_audio_true(d.audio_pids, loop_entries(pmt_loop(section_body(s)), 5)->Ok_0, plan);
}

/// The reassembly on PID `pid`.
pub open spec fn assembly_on(d: Discovery, pid: u16) -> Assembly {
    if pid == PAT_PID { d.pat } else { d.assembly(pid) }
}

/// The sections `v` are good ones for PID `pid`, and at most one.
pub open spec fn are_good(v: Seq<Seq<u8>>, pid: u16, plan: PlanView) -> bool {
    &&& v.len() <= 1
    &&& v.len() == 1 ==> (if pid == PAT_PID {
        is_good_pat(v[0], plan)
    } else {
        is_good_pmt(v[0], plan)
    })
}

/// A packet of a PAT or PMT that brings good sections tells the truth. If the PID
/// is not known yet, it tells nothing.
proof fn lemma_packet_true(d: Discovery, p: TsPacketView, plan: PlanView)
    requires
        announced(plan),
        tells_true(d, plan),
        p.payload.len() > 0,
        p.pid == PAT_PID || is_map_pid(plan, p.pid),
        ({
            let g = assembly_on(d, p.pid).gathered(
                p.payload,
                p.payload_unit_start,
                p.continuity_counter,
            );
            g.error is None && are_good(g.sections, p.pid, plan)
        }),
    ensures
        tells_true(d.with_packet(p), plan),
        p.pid == PAT_PID || d.pmt_pids.contains(p.pid) ==> assembly_on(d.with_packet(p), p.pid)
            == assembly_on(d, p.pid).fed(p.payload, p.payload_unit_start, p.continuity_counter),
        d.pmt_pids.contains(p.pid) && p.pid != PAT_PID ==> d.with_packet(p).pmt_pids.contains(p.pid),
        p.pid != PAT_PID && !d.pmt_pids.contains(p.pid) ==> d.with_packet(p) == d,
{
    let cc = p.continuity_counter;
    let a = assembly_on(d, p.pid);
    let g = a.gathered(p.payload, p.payload_unit_start, cc);
    let fed = a.fed(p.payload, p.payload_unit_start, cc);
    assert(a.wf()) by {
        reveal(tells_true);
    }
    lemma_assembly_bounded(a, p.payload, p.payload_unit_start, cc);
    reveal_with_fuel(Discovery::with_pats, 2);
    reveal_with_fuel(Discovery::with_pmts, 2);
    if p.pid == PAT_PID {
        let e = Discovery { pat: fed, ..d };
        assert(tells_true(e, plan)) by {
            reveal(tells_true);
        }
        if g.sections.len() == 1 {
            assert(g.sections.drop_last() =~= Seq::empty());
            lemma_pat_true(e, g.sections[0], plan);
        }
    } else if d.pmt_pids.contains(p.pid) {
        let e = Discovery { pmts: d.pmts.insert(p.pid, fed), ..d };
        assert(tells_true(e, plan)) by {
            reveal(tells_true);
        }
        if g.sections.len() == 1 {
            assert(g.sections.drop_last() =~= Seq::empty());
            lemma_pmt_true(e, g.sections[0], plan);
        }
    }
}

/// A PMT on a PID that no PAT has named yet tells nothing.
proof fn lemma_unknown_untold(
    f: FlowView,
    plan: PlanView,
    pid: u16,
    slot: Slot,
    key: u16,
    rest: Seq<u8>,
    start: bool,
)
    requires
        announced(plan),
        tells_true(told(f.out), plan),
        pid < 0x1FFF,
        pid != PAT_PID,
        !told(f.out).pmt_pids.contains(pid),
        counts(f, slot),
    ensures
        told(f.section_put(pid, slot, key, rest, start).out) == told(f.out),
    decreases rest.len() + (if start { 1int } else { 0 }),
{
    if start || rest.len() > 0 {
        let a = f.tb_paced(key, SYS_TB_RX as int);
        let b = section_ready(f, key);
        lemma_paced_untold(f, key, SYS_TB_RX as int, plan);
        lemma_bsys_untold(a, plan);
        let _ = lemma_section_step(f, pid, slot, key, rest, start);
        let packet = psi_packet(pid, b.counter(slot), start, rest);
        lemma_tb_paced_pads(f, key, SYS_TB_RX as int, pid);
        lemma_bsys_paced_pads(a, pid);
        lemma_psi_packet_read_back(pid, b.counter(slot), start, rest);
        lemma_told_put(b.out, packet);
        let c = b.put(packet).count_table(slot);
        assert(c.out == b.out + packet);
        lemma_unknown_untold(
            c,
            plan,
            pid,
            slot,
            key,
            rest.skip(psi_take(start, rest.len() as int)),
            false,
        );
    }
}

/// The packets `ps` of a good section tell the truth.
proof fn lemma_known_true(
    f: FlowView,
    plan: PlanView,
    pid: u16,
    slot: Slot,
    key: u16,
    rest: Seq<u8>,
    start: bool,
    ps: Seq<TsPacketView>,
)
    requires
        announced(plan),
        tells_true(told(f.out), plan),
        pid < 0x1FFF,
        pid == PAT_PID || is_map_pid(plan, pid),
        pid == PAT_PID || told(f.out).pmt_pids.contains(pid),
        counts(f, slot),
        packets_on(f.section_put(pid, slot, key, rest, start).out, pid) == packets_on(f.out, pid)
            + ps,
        ({
            let a = assembly_on(told(f.out), pid);
            are_good(collected(a, ps), pid, plan) && collected_clean(a, ps)
        }),
        forall|i: int| 0 <= i < ps.len() ==> (#[trigger] ps[i]).pid == pid && ps[i].payload.len() > 0,
    ensures
        tells_true(told(f.section_put(pid, slot, key, rest, start).out), plan),
    decreases rest.len() + (if start { 1int } else { 0 }),
{
    if start || rest.len() > 0 {
        let a = f.tb_paced(key, SYS_TB_RX as int);
        let b = section_ready(f, key);
        let n = psi_take(start, rest.len() as int);
        lemma_paced_untold(f, key, SYS_TB_RX as int, plan);
        lemma_bsys_untold(a, plan);
        let p = lemma_section_step(f, pid, slot, key, rest, start);
        let packet = psi_packet(pid, b.counter(slot), start, rest);
        lemma_tb_paced_pads(f, key, SYS_TB_RX as int, pid);
        lemma_bsys_paced_pads(a, pid);
        lemma_psi_packet_read_back(pid, b.counter(slot), start, rest);
        lemma_told_put(b.out, packet);
        lemma_packets_on_put(b.out, packet, pid);
        let c = b.put(packet).count_table(slot);
        assert(c.out == b.out + packet);
        let (more, _, _) = lemma_section_rest_read_back(c, pid, slot, key, rest.skip(n));
        let v = parse_packet_spec(packet)->Ok_0;
        assert(packets_on(c.out, pid).last() == v);
        assert(packets_on(c.out, pid).last() == p);
        assert(packets_on(f.out, pid).push(p) + more =~= packets_on(f.out, pid) + (seq![p] + more));
        let all = packets_on(f.out, pid) + ps;
        let k = packets_on(f.out, pid).len() as int;
        assert(all.skip(k) =~= ps);
        assert(all.skip(k) =~= seq![p] + more);
        assert(ps.skip(1) =~= more);
        assert(ps[0] == p);
        let d = told(f.out);
        let x = assembly_on(d, pid);
        let g = x.gathered(p.payload, p.payload_unit_start, p.continuity_counter);
        let fed = x.fed(p.payload, p.payload_unit_start, p.continuity_counter);
        let all_sections = g.sections + collected(fed, more);
        assert(collected(x, ps) == all_sections);
        assert(are_good(g.sections, pid, plan)) by {
            if g.sections.len() == 1 {
                assert(all_sections[0] == g.sections[0]);
            }
        }
        assert(are_good(collected(fed, more), pid, plan)) by {
            if collected(fed, more).len() == 1 {
                assert(all_sections[0] == collected(fed, more)[0]);
            }
        }
        lemma_packet_true(d, p, plan);
        assert forall|i: int| 0 <= i < more.len() implies (#[trigger] more[i]).pid == pid
            && more[i].payload.len() > 0 by {
            assert(more[i] == ps[i + 1]);
        }
        lemma_known_true(c, plan, pid, slot, key, rest.skip(n), false, more);
    }
}

/// A table of the layout tells the truth.
pub proof fn lemma_table_true(f: FlowView, plan: PlanView, k: int, key: u16)
    requires
        announced(plan),
        tells_true(told(f.out), plan),
        0 <= k < plan.tables.len(),
        plan.tables[k].pid < 0x1FFF,
        counts(f, plan.tables[k].slot),
    ensures
        ({
            let t = plan.tables[k];
            tells_true(told(f.section_put(t.pid, t.slot, key, t.section, true).out), plan)
        }),
{
    let t = plan.tables[k];
    let d = told(f.out);
    if t.pid != PAT_PID && !d.pmt_pids.contains(t.pid) {
        lemma_unknown_untold(f, plan, t.pid, t.slot, key, t.section, true);
    } else {
        assert(t.pid != PAT_PID ==> is_map_pid(plan, t.pid)) by {
            reveal(tells_true);
        }
        assert(is_section(t.section) && are_good(seq![t.section], t.pid, plan)) by {
            reveal(announced);
        }
        let a = assembly_on(d, t.pid);
        assert(a.wf()) by {
            reveal(tells_true);
        }
        let ps = lemma_section_read_back(f, t.pid, t.slot, key, t.section, a);
        lemma_known_true(f, plan, t.pid, t.slot, key, t.section, true, ps);
    }
}

/// The rest of a PES packet tells nothing.
proof fn lemma_rest_untold(
    f: FlowView,
    plan: PlanView,
    t: int,
    riders: Riders,
    start: bool,
    run: Option<int>,
    rest: Seq<u8>,
)
    requires
        announced(plan),
        tells_true(told(f.out), plan),
        0 <= t < plan.tracks.len(),
        f.tracks.len() == plan.tracks.len(),
        f.tracks[t].cc < 16,
        riders.wf(),
        plan.tracks[t].pid < 0x1FFF,
    ensures
        told(f.rest_put(plan, t, riders, start, run, rest).out) == told(f.out),
        f.rest_put(plan, t, riders, start, run, rest).tracks.len() == f.tracks.len(),
        f.rest_put(plan, t, riders, start, run, rest).tracks[t].cc < 16,
    decreases rest.len(),
{
    if rest.len() > 0 {
        let left = rest.len() as int;
        let pid = plan.tracks[t].pid;
        let a = f.paced_for(plan, t);
        lemma_paced_untold(f, pid, AUDIO_TB_RX as int, plan);
        let p = lemma_step_read_back(f, plan, t, riders, start, run, rest);
        let field = a.packet_field(plan, t, riders, start, run, left);
        lemma_packet_field_fits(a, plan, t, riders, start, run, left);
        let cc = a.tracks[t].cc;
        let packet = pes_packet(pid, cc, start, field, rest);
        lemma_pes_packet_len(pid, cc, start, field, rest);
        lemma_pes_packet_read_back(pid, cc, start, field, rest);
        assert(pid != PAT_PID && !is_map_pid(plan, pid)) by {
            reveal(announced);
        }
        lemma_untold(a.out, packet, plan);
        let b = stepped(f, plan, t, riders, start, run, rest);
        assert(b.out == a.out + packet);
        lemma_rest_untold(
            b,
            plan,
            t,
            riders,
            false,
            a.run_after(plan, t, riders, start, run, left),
            rest.skip(p.payload.len() as int),
        );
    }
}

/// The PES packets of a frame tell nothing.
pub proof fn lemma_frame_untold(
    f: FlowView,
    plan: PlanView,
    t: int,
    riders: Riders,
    packets: Seq<Seq<u8>>,
    n: int,
)
    requires
        announced(plan),
        tells_true(told(f.out), plan),
        0 <= t < plan.tracks.len(),
        f.tracks.len() == plan.tracks.len(),
        f.tracks[t].cc < 16,
        riders.wf(),
        plan.tracks[t].pid < 0x1FFF,
        n <= packets.len(),
    ensures
        told(f.frame_put(plan, t, riders, packets, n).out) == told(f.out),
        f.frame_put(plan, t, riders, packets, n).tracks.len() == f.tracks.len(),
        f.frame_put(plan, t, riders, packets, n).tracks[t].cc < 16,
    decreases n,
{
    if n > 0 {
        lemma_frame_untold(f, plan, t, riders, packets, n - 1);
        let a = f.frame_put(plan, t, riders, packets, n - 1);
        let mine = riders_for(riders, n - 1, packets.len() - 1);
        let pes = packets[n - 1];
        match mine.splice {
            None => {
                lemma_rest_untold(a, plan, t, mine, true, None, pes);
            },
            Some(_) => {
                let b = a.with_after_splice(t, None);
                lemma_rest_untold(b, plan, t, mine, true, None, pes);
            },
        }
    }
}

} // verus!
