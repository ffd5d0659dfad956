//! What the multiplexer promises as a whole.
use vstd::prelude::*;

use crate::build::round_trip::{
    announces, lemma_entry_within, lemma_pat_round_trip, lemma_pmt_entries_round_trip,
    lemma_pid_kept, lemma_pmt_entry, lemma_section_round_trip,
};
use crate::build::sections::{pat_body, pmt_body, pmt_entry, PSI_TAG};
use crate::bytes::low13;
use crate::muxer::config::MpegTsMuxConfig;
use crate::muxer::deliver::{decode_time, lead_of, lemma_waits_positive, ticks_27, Outcome};
use crate::muxer::emit::{tb_key, PCR_MAX_INTERVAL_90K, PCR_STEP_90K};
use crate::muxer::flow::{
    FlowView, PacketView, PlanView, ProgramPlan, CBR_PCR_INTERVAL_27MHZ, TICKS_PER_BYTE_RATE,
};
use crate::muxer::frame_read_back::{hands_out, is_ready};
use crate::muxer::mux::{track_for_index, MuxView};
use crate::muxer::pes::frame_error;
use crate::muxer::packets::{null_packet, pcr_packet};
use crate::muxer::plan::{es_info, pat_of, plan_of, pmt_of, track_entries, DraftView};
use crate::muxer::plan_laws::laid_out;
use crate::muxer::read_back::{
    counted_on, lemma_pcr_now_fits, lemma_pcr_packet_read_back, packets_on,
};
use crate::muxer::section_read_back::{collected, lemma_section_read_back};
use crate::muxer::stream_read_back::{
    has_pcr_pid, lemma_section_elsewhere, lemma_sent_read_back, owns_pid, units_of,
};
use crate::muxer::well_formed::lemma_track_in_range;
use crate::packet::parse::{parse_packet_spec, TsPacketView};
use crate::pes::reassemble::Reassembly;
use crate::psi::assembler::{is_section, Assembly};
use crate::psi::entries::loop_entries;
use crate::psi::section::{section_body, section_error, section_header};
use crate::psi::tables::{pat_programs, pmt_error, pmt_loop, PAT_PID, PAT_TABLE_ID, PMT_TABLE_ID};
use crate::validate::discovery::NULL_PID;

verus! {

/// The PIDs of the tables fit their fields.
pub open spec fn table_pids_fit(plan: PlanView) -> bool {
    forall|i: int| 0 <= i < plan.tables.len() ==> (#[trigger] plan.tables[i]).pid < 0x1FFF
}

/// No table is on PID `q`.
pub open spec fn no_table_on(plan: PlanView, q: u16) -> bool {
    forall|i: int| 0 <= i < plan.tables.len() ==> (#[trigger] plan.tables[i]).pid != q
}

/// Every counter of a table has its four bits.
pub open spec fn tables_count(f: FlowView, plan: PlanView) -> bool {
    &&& f.pmt_cc.len() == plan.programs.len()
    &&& forall|i: int| 0 <= i < f.pmt_cc.len() ==> #[trigger] f.pmt_cc[i] < 16
    &&& f.table_cc.pat < 16 && f.table_cc.sdt < 16 && f.table_cc.nit < 16 && f.table_cc.eit < 16
}

proof fn lemma_section_counts(
    f: FlowView,
    plan: PlanView,
    pid: u16,
    slot: crate::muxer::flow::Slot,
    key: u16,
    rest: Seq<u8>,
    start: bool,
)
    requires
        tables_count(f, plan),
        plan.has_slot(slot),
    ensures
        tables_count(f.section_put(pid, slot, key, rest, start), plan),
    decreases rest.len() + (if start { 1int } else { 0 }),
{
    if start || rest.len() > 0 {
        let a = f.tb_paced(key, crate::muxer::flow::SYS_TB_RX as int);
        let b = if key == crate::muxer::flow::SYS_TB_KEY { a.bsys_paced() } else { a };
        crate::muxer::read_back::lemma_tb_paced_pads(
            f,
            key,
            crate::muxer::flow::SYS_TB_RX as int,
            0,
        );
        crate::muxer::read_back::lemma_bsys_paced_pads(a, 0);
        let packet = crate::muxer::packets::psi_packet(pid, b.counter(slot), start, rest);
        let c = b.put(packet).count_table(slot);
        let n = crate::muxer::packets::psi_take(start, rest.len() as int);
        lemma_section_counts(c, plan, pid, slot, key, rest.skip(n), false);
    }
}

/// The tables leave every PID alone that none of them is on.
pub proof fn lemma_tables_elsewhere(f: FlowView, plan: PlanView, n: int, q: u16)
    requires
        plan.wf(),
        table_pids_fit(plan),
        tables_count(f, plan),
        0 <= n <= plan.tables.len(),
        forall|i: int| 0 <= i < n ==> (#[trigger] plan.tables[i]).pid != q,
        q != NULL_PID,
    ensures
        packets_on(f.tables_put(plan, n).out, q) == packets_on(f.out, q),
        f.tables_put(plan, n).tracks == f.tracks,
        f.tables_put(plan, n).programs == f.programs,
        f.pacer is None ==> f.tables_put(plan, n).pacer is None,
        tables_count(f.tables_put(plan, n), plan),
    decreases n,
{
    if n > 0 {
        lemma_tables_elsewhere(f, plan, n - 1, q);
        let a = f.tables_put(plan, n - 1);
        let t = plan.tables[n - 1];
        lemma_section_elsewhere(a, t.pid, t.slot, tb_key(plan, t.pid), t.section, true, q);
        lemma_section_counts(a, plan, t.pid, t.slot, tb_key(plan, t.pid), t.section, true);
    }
}

pub(crate) proof fn lemma_tables_keep_counts(f: FlowView, plan: PlanView, n: int)
    requires
        plan.wf(),
        tables_count(f, plan),
        0 <= n <= plan.tables.len(),
    ensures
        tables_count(f.tables_put(plan, n), plan),
    decreases n,
{
    if n > 0 {
        lemma_tables_keep_counts(f, plan, n - 1);
        let t = plan.tables[n - 1];
        lemma_section_counts(
            f.tables_put(plan, n - 1),
            plan,
            t.pid,
            t.slot,
            tb_key(plan, t.pid),
            t.section,
            true,
        );
    }
}

/// A table that has its PID for itself is read back whenever the tables are
/// written: a reassembler fed with what comes on the PID hands out its section.
pub proof fn lemma_table_read_back(f: FlowView, plan: PlanView, n: int, i: int, a: Assembly) -> (ps:
    Seq<TsPacketView>)
    requires
        plan.wf(),
        table_pids_fit(plan),
        tables_count(f, plan),
        0 <= i < n <= plan.tables.len(),
        has_own_pid(plan, i),
        is_section(plan.tables[i].section),
        a.wf(),
    ensures
        packets_on(f.tables_put(plan, n).out, plan.tables[i].pid) == packets_on(
            f.out,
            plan.tables[i].pid,
        ) + ps,
        collected(a, ps) == seq![plan.tables[i].section],
    decreases n,
{
    let t = plan.tables[n - 1];
    let b = f.tables_put(plan, n - 1);
    let key = tb_key(plan, t.pid);
    lemma_tables_keep_counts(f, plan, n - 1);
    if i == n - 1 {
        lemma_tables_elsewhere(f, plan, n - 1, t.pid);
        lemma_section_read_back(b, t.pid, t.slot, key, t.section, a)
    } else {
        let ps = lemma_table_read_back(f, plan, n - 1, i, a);
        lemma_section_elsewhere(b, t.pid, t.slot, key, t.section, true, plan.tables[i].pid);
        ps
    }
}

/// A frame that is written without pacing is read back: a reassembler fed with
/// what comes on the PID of its stream hands out the PES packets of the frame,
/// with its data, its timestamps and its mark, whatever tables and clock
/// references go along; and the counters there count on.
pub proof fn lemma_written_frame_read_back(m: MuxView, pkt: PacketView, s: Reassembly) -> (ps: Seq<
    TsPacketView,
>)
    requires
        m.wf(),
        m.header_written,
        m.flow.pacer is None,
        table_pids_fit(m.plan),
        track_for_index(m.plan, pkt.stream_index, 0) matches Some(t) && {
            &&& m.plan.tracks[t].pid < 0x1FFF
            &&& no_table_on(m.plan, m.plan.tracks[t].pid)
            &&& has_pcr_pid(m.plan, m.plan.tracks[t].program as int)
            &&& frame_error(
                m.plan.tracks[t].stream_id,
                pkt.pts,
                pkt.dts,
                pkt.data.len() as int,
            ) is None
        },
        is_ready(s),
    ensures
        ({
            let t = track_for_index(m.plan, pkt.stream_index, 0)->0;
            let pid = m.plan.tracks[t].pid;
            let o = m.packet_written(pkt);
            &&& o.error is None
            &&& packets_on(o.mux.flow.out, pid) == packets_on(m.flow.out, pid) + ps
            &&& hands_out(s, ps, units_of(m.plan, t, pkt))
            &&& owns_pid(m.plan, t) ==> counted_on(ps, m.flow.tracks[t].cc) == Some(
                o.mux.flow.tracks[t].cc,
            )
        }),
{
    lemma_track_in_range(m.plan, pkt.stream_index, 0);
    let t = track_for_index(m.plan, pkt.stream_index, 0)->0;
    let pid = m.plan.tracks[t].pid;
    let plan = m.plan;
    let n = plan.tables.len() as int;
    lemma_tables_elsewhere(m.flow, plan, n, pid);
    let a = match pkt.pts {
        Some(x) => m.tables_repeated(x),
        None => m,
    };
    assert(packets_on(a.flow.out, pid) == packets_on(m.flow.out, pid));
    assert(a.flow.tracks == m.flow.tracks);
    lemma_sent_read_back(a.flow, plan, t, pkt, false, s)
}

/// The table at place `i` has its PID for itself.
pub open spec fn has_own_pid(plan: PlanView, i: int) -> bool {
    forall|j: int|
        0 <= j < plan.tables.len() && j != i ==> (#[trigger] plan.tables[j]).pid
            != plan.tables[i].pid
}

/// The PAT, if it fits one section, is a valid one that lists every program with
/// its PMT PID.
pub proof fn lemma_pat_reads(d: DraftView, config: MpegTsMuxConfig)
    requires
        d.programs.len() <= 253,
        forall|p: int| 0 <= p < d.programs.len() ==> (#[trigger] d.programs[p]).pmt_pid < 0x2000,
    ensures
        ({
            let s = pat_of(d, config).section;
            &&& is_section(s)
            &&& section_error(s, PAT_TABLE_ID) is None
            &&& pat_programs(section_body(s)) == d.programs.map_values(
                |p: ProgramPlan| (p.number, p.pmt_pid),
            )
        }),
{
    let programs = d.programs.map_values(|p: ProgramPlan| (p.number, p.pmt_pid));
    lemma_pat_round_trip(config.transport_stream_id, 0, programs);
    lemma_pat_len(programs);
    lemma_pid_kept(0);
    lemma_section_round_trip(
        PAT_TABLE_ID,
        PSI_TAG,
        config.transport_stream_id,
        0,
        pat_body(programs),
    );
}

/// The PMT of a program, if it fits one section, is a valid one that names its PCR
/// PID and lists its streams.
pub proof fn lemma_pmt_reads(d: DraftView, p: int)
    requires
        0 <= p < d.programs.len(),
        d.programs[p].pcr_pid < 0x2000,
        forall|k: int| 0 <= k < d.tracks.len() ==> (#[trigger] d.tracks[k]).pid < 0x2000,
        pmt_body(
            d.programs[p].pcr_pid,
            Seq::empty(),
            track_entries(d, p, d.tracks.len() as int),
        ).len() <= 1012,
    ensures
        ({
            let s = pmt_of(d, p).section;
            &&& is_section(s)
            &&& pmt_error(s) is None
            &&& section_header(s).table_id_extension == d.programs[p].number
            &&& low13(section_body(s)[0], section_body(s)[1]) == d.programs[p].pcr_pid
            &&& loop_entries(pmt_loop(section_body(s)), 5) == Ok::<_, crate::TsError>(
                track_entries(d, p, d.tracks.len() as int),
            )
        }),
{
    let es = track_entries(d, p, d.tracks.len() as int);
    let pcr_pid = d.programs[p].pcr_pid;
    let none = Seq::<u8>::empty();
    assert forall|i: int| 0 <= i < es.len() implies #[trigger] announces(es[i], 5) by {
        lemma_track_entries(d, p, d.tracks.len() as int, i);
        let k = choose|k: int|
            0 <= k < d.tracks.len() && (#[trigger] d.tracks[k]).program == p && es[i] == pmt_entry(
                d.tracks[k].stream_type,
                d.tracks[k].pid,
                es_info(d.tracks[k], d.extras[k]),
            );
        lemma_entry_within(es, i);
        lemma_pmt_entry(
            d.tracks[k].stream_type,
            d.tracks[k].pid,
            es_info(d.tracks[k], d.extras[k]),
        );
    }
    lemma_pmt_entries_round_trip(d.programs[p].number, 0, pcr_pid, none, es);
    lemma_pid_kept(0);
    lemma_section_round_trip(
        PMT_TABLE_ID,
        PSI_TAG,
        d.programs[p].number,
        0,
        pmt_body(pcr_pid, none, es),
    );
}

/// Whenever the tables are written, the PAT lists every program with its PMT
/// PID, if it fits one section.
pub proof fn lemma_pat_announces(
    d: DraftView,
    config: MpegTsMuxConfig,
    f: FlowView,
    a: Assembly,
) -> (ps: Seq<TsPacketView>)
    requires
        plan_of(d, config).wf(),
        table_pids_fit(plan_of(d, config)),
        tables_count(f, plan_of(d, config)),
        has_own_pid(plan_of(d, config), 0),
        d.programs.len() <= 253,
        a.wf(),
    ensures
        ({
            let plan = plan_of(d, config);
            let s = plan.tables[0].section;
            &&& packets_on(f.tables_put(plan, plan.tables.len() as int).out, PAT_PID)
                == packets_on(f.out, PAT_PID) + ps
            &&& collected(a, ps) == seq![s]
            &&& section_error(s, PAT_TABLE_ID) is None
            &&& pat_programs(section_body(s)) == d.programs.map_values(
                |p: ProgramPlan| (p.number, p.pmt_pid),
            )
        }),
{
    let plan = plan_of(d, config);
    assert(plan.tables[0] == pat_of(d, config));
    assert forall|i: int| 0 <= i < d.programs.len() implies (#[trigger] d.programs[i]).pmt_pid
        < 0x2000 by {
        assert(plan.tables[1 + i] == pmt_of(d, i));
        assert(plan.tables[1 + i].pid < 0x1FFF);
    }
    lemma_pat_reads(d, config);
    lemma_table_read_back(f, plan, plan.tables.len() as int, 0, a)
}

pub(crate) proof fn lemma_track_entries(d: DraftView, p: int, n: int, i: int)
    requires
        0 <= n <= d.tracks.len(),
        0 <= i < track_entries(d, p, n).len(),
    ensures
        exists|k: int|
            0 <= k < n && (#[trigger] d.tracks[k]).program == p && track_entries(d, p, n)[i]
                == pmt_entry(
                d.tracks[k].stream_type,
                d.tracks[k].pid,
                es_info(d.tracks[k], d.extras[k]),
            ),
    decreases n,
{
    if n > 0 {
        let prior = track_entries(d, p, n - 1);
        if d.tracks[n - 1].program == p && i == prior.len() {
            assert(d.tracks[n - 1].program == p);
        } else {
            lemma_track_entries(d, p, n - 1, i);
        }
    }
}

/// Whenever the tables are written, the PMT of each program names its PCR PID
/// and lists its streams, each with its type, its PID and its descriptors, if it
/// fits one section and has its PID for itself.
pub proof fn lemma_pmt_announces(
    d: DraftView,
    config: MpegTsMuxConfig,
    p: int,
    f: FlowView,
    a: Assembly,
) -> (ps: Seq<TsPacketView>)
    requires
        plan_of(d, config).wf(),
        table_pids_fit(plan_of(d, config)),
        tables_count(f, plan_of(d, config)),
        0 <= p < d.programs.len(),
        has_own_pid(plan_of(d, config), 1 + p),
        d.programs[p].pcr_pid < 0x2000,
        forall|k: int| 0 <= k < d.tracks.len() ==> (#[trigger] d.tracks[k]).pid < 0x2000,
        pmt_body(
            d.programs[p].pcr_pid,
            Seq::empty(),
            track_entries(d, p, d.tracks.len() as int),
        ).len() <= 1012,
        a.wf(),
    ensures
        ({
            let plan = plan_of(d, config);
            let s = plan.tables[1 + p].section;
            let pid = d.programs[p].pmt_pid;
            &&& packets_on(f.tables_put(plan, plan.tables.len() as int).out, pid) == packets_on(
                f.out,
                pid,
            ) + ps
            &&& collected(a, ps) == seq![s]
            &&& pmt_error(s) is None
            &&& section_header(s).table_id_extension == d.programs[p].number
            &&& low13(section_body(s)[0], section_body(s)[1]) == d.programs[p].pcr_pid
            &&& loop_entries(pmt_loop(section_body(s)), 5) == Ok::<_, crate::TsError>(
                track_entries(d, p, d.tracks.len() as int),
            )
        }),
{
    let plan = plan_of(d, config);
    assert(plan.tables[1 + p] == pmt_of(d, p));
    lemma_pmt_reads(d, p);
    lemma_table_read_back(f, plan, plan.tables.len() as int, 1 + p, a)
}

proof fn lemma_pat_len(programs: Seq<(u16, u16)>)
    ensures
        pat_body(programs).len() == 4 * programs.len(),
    decreases programs.len(),
{
    if programs.len() > 0 {
        lemma_pat_len(programs.drop_last());
    }
}

/// No transport buffer ever holds more than its 512 bytes, and the system buffer
/// never more than its 1536: so at every later byte position, too, as buffers
/// only drain. (Levels count `rate` and `500 * rate` for a byte.)
pub proof fn lemma_buffers_bounded(m: MuxView, key: u16, rx: int, b: int)
    requires
        m.wf(),
        m.flow.pacer is Some,
        b >= m.flow.pos(),
        rx >= 0,
    ensures
        0 <= m.flow.pacer->0.tb_level(key, rx, b) <= 512 * m.flow.pacer->0.rate,
        0 <= m.flow.pacer->0.bsys_level(b) <= 1536 * (500 * m.flow.pacer->0.rate),
{
    let p = m.flow.pacer->0;
    if p.tb.contains_key(key) {
        assert(rx * (b - p.tb[key].1) >= 0) by (nonlinear_arith)
            requires
                rx >= 0,
                b - p.tb[key].1 >= 0,
        ;
    }
    assert(p.bsys_drain() * (b - p.bsys.1) >= 0) by (nonlinear_arith)
        requires
            p.bsys_drain() >= 0,
            b - p.bsys.1 >= 0,
    ;
}

/// Off the byte clock, clock references are filled in up to a frame's: after
/// that, the frame's own is within the interval of the last one, which has not
/// gone back nor past it.
pub proof fn lemma_pcr_gap_filled(f: FlowView, plan: PlanView, p: int, target: int)
    requires
        0 <= p < f.programs.len(),
        f.programs[p].last_pcr is Some,
        target <= i64::MAX,
    ensures
        ({
            let g = f.chain_put(plan, p, target);
            &&& g.programs[p].last_pcr is Some
            &&& target - g.programs[p].last_pcr->0 <= PCR_MAX_INTERVAL_90K
            &&& g.programs[p].last_pcr->0 >= f.programs[p].last_pcr->0
            &&& target - f.programs[p].last_pcr->0 > PCR_MAX_INTERVAL_90K
                ==> g.programs[p].last_pcr->0 <= target
        }),
    decreases target - f.programs[p].last_pcr->0,
{
    let last = f.programs[p].last_pcr->0;
    if target - last > PCR_MAX_INTERVAL_90K {
        let next = (last + PCR_STEP_90K) as i64;
        let base = crate::muxer::pes::ring(if next > 0 { next } else { 0 });
        let h = f.pcr_put(plan, p, base, 0).with_last_pcr(p, next);
        assert(h.programs[p].last_pcr == Some(next));
        lemma_pcr_gap_filled(h, plan, p, target);
    }
}

/// On the byte clock, no program owes a clock reference once those that are due
/// are written: the last one of each is this side of the interval, or was written
/// just now.
pub proof fn lemma_no_pcr_owed(f: FlowView, plan: PlanView, n: int, p: int)
    requires
        f.anchored(),
        f.pacer->0.rate >= 1,
        0 <= p < n <= plan.programs.len(),
        f.pacer->0.last_pcr.len() == plan.programs.len(),
    ensures
        ({
            let g = f.clocks_put(plan, n);
            &&& g.anchored()
            &&& g.pacer->0.last_pcr.len() == plan.programs.len()
            &&& g.pacer->0.last_pcr[p] matches Some(b) && (b >= f.pos() || (f.pos() - b)
                * TICKS_PER_BYTE_RATE / f.pacer->0.rate < CBR_PCR_INTERVAL_27MHZ)
        }),
    decreases n,
{
    lemma_clocks_keep(f, plan, n - 1, p);
    let a = f.clocks_put(plan, n - 1);
    if p < n - 1 {
        lemma_no_pcr_owed(f, plan, n - 1, p);
    } else if !a.pcr_due(p) {
        let q = f.pacer->0;
        let b = q.last_pcr[p]->0;
        if b < f.pos() {
            let x = (f.pos() - b) * TICKS_PER_BYTE_RATE;
            let y = (a.pos() - b) * TICKS_PER_BYTE_RATE;
            assert(x <= y);
            vstd::arithmetic::div_mod::lemma_div_is_ordered(x, y, q.rate);
        }
    }
}

/// Writing the clock references of other programs leaves the time line and what
/// program `p` knows of its last one alone.
proof fn lemma_clocks_keep(f: FlowView, plan: PlanView, n: int, p: int)
    requires
        f.anchored(),
        n <= plan.programs.len(),
        f.pacer->0.last_pcr.len() == plan.programs.len(),
    ensures
        ({
            let g = f.clocks_put(plan, n);
            &&& g.anchored()
            &&& g.pos() >= f.pos()
            &&& g.pacer->0.rate == f.pacer->0.rate
            &&& g.pacer->0.anchor == f.pacer->0.anchor
            &&& g.pacer->0.last_pcr.len() == plan.programs.len()
            &&& n <= p < plan.programs.len() ==> g.pacer->0.last_pcr[p] == f.pacer->0.last_pcr[p]
        }),
    decreases n,
{
    if n > 0 {
        lemma_clocks_keep(f, plan, n - 1, p);
    }
}

/// The clock references that are due take a packet each, at most.
pub proof fn lemma_clocks_len(f: FlowView, plan: PlanView, n: int)
    requires
        laid_out(plan),
        0 <= n <= plan.programs.len(),
    ensures
        f.pos() <= f.clocks_put(plan, n).pos() <= f.pos() + 188 * n,
    decreases n,
{
    if n > 0 {
        lemma_clocks_len(f, plan, n - 1);
        let a = f.clocks_put(plan, n - 1);
        if a.anchored() && a.pcr_due(n - 1) {
            let (base, ext) = a.pcr_now();
            let prog = plan.programs[n - 1];
            lemma_pcr_now_fits(a);
            match prog.pcr_track {
                Some(t) => {
                    let cc = ((a.tracks[t as int].cc + 15) % 16) as u8;
                    assert(prog.pcr_pid < 0x2000) by {
                        reveal(laid_out);
                    }
                    lemma_pcr_packet_read_back(
                        prog.pcr_pid,
                        cc,
                        a.programs[n - 1].discontinuity,
                        base,
                        ext,
                    );
                },
                None => {},
            }
        }
    }
}

/// From `h` on a frame with decode time `d` goes out: the clock references that are
/// due, which take a packet a program at most, and then the frame. The clock is not
/// past `d` before them.
pub open spec fn starts_in_time(
    h: FlowView,
    o: Outcome,
    plan: PlanView,
    t: int,
    pkt: PacketView,
    d: int,
) -> bool {
    let n = plan.programs.len() as int;
    let a = h.clocks_put(plan, n);
    &&& h.now() <= d
    &&& o == a.sent(plan, t, pkt, true)
    &&& h.pos() <= a.pos() <= h.pos() + 188 * n
}

/// A frame with a decode time that is accepted under pacing starts no later than
/// that time, but for the clock references that are due before it: whether it goes
/// out when it is written or was held.
pub proof fn lemma_frame_in_time(f: FlowView, plan: PlanView, t: int, pkt: PacketView, held: bool) -> (h:
    FlowView)
    requires
        laid_out(plan),
        f.pacer is Some,
        decode_time(pkt) is Some,
        ({
            let o = if held { f.delivered_held(plan, t, pkt) } else { f.delivered(plan, t, pkt) };
            o.error is None
        }),
    ensures
        starts_in_time(
            h,
            if held { f.delivered_held(plan, t, pkt) } else { f.delivered(plan, t, pkt) },
            plan,
            t,
            pkt,
            ticks_27(decode_time(pkt)->0),
        ),
{
    let d = decode_time(pkt)->0;
    let target = ticks_27(d) - lead_of(plan.tracks[t].is_video);
    let a = f.clock_started(target);
    let n = plan.programs.len() as int;
    let h = if held {
        a.idled(plan, target, a.waits(target))
    } else {
        let o = a.waited(plan, target, a.waits(target)).flow;
        o.flushed_all(plan, o.now() + o.wire_time(pkt.data.len() as int)).flow
    };
    lemma_clocks_len(h, plan, n);
    h
}

/// Padding goes on until the byte clock reaches the time to wait for.
pub proof fn lemma_padding_reaches(f: FlowView, plan: PlanView, target: int, fuel: nat)
    requires
        f.anchored(),
        f.pacer->0.rate >= 1,
        f.pacer->0.anchor matches Some((b, _)) && b <= f.pos(),
        f.pacer->0.last_pcr.len() == plan.programs.len(),
        fuel >= f.waits(target),
    ensures
        f.idled(plan, target, fuel).now() >= target,
    decreases fuel,
{
    if f.now() < target {
        lemma_waits_positive(f, target);
        let n = plan.programs.len() as int;
        lemma_clocks_keep(f, plan, n, 0);
        let g = f.clocks_put(plan, n).put(null_packet());
        assert(null_packet().len() == 188);
        lemma_padding_reaches(g, plan, target, (fuel - 1) as nat);
    }
}

/// A new time base is signalled by the very next clock reference of the program,
/// and by no other.
pub proof fn lemma_discontinuity_signalled_once(
    f: FlowView,
    plan: PlanView,
    p: int,
    base: u64,
    ext: u16,
)
    requires
        0 <= p < f.programs.len(),
        has_pcr_pid(plan, p),
        plan.programs[p].pcr_track is Some,
        base <= 0x1_FFFF_FFFF,
        ext <= 0x1FF,
    ensures
        ({
            let g = f.pcr_put(plan, p, base, ext);
            let v = parse_packet_spec(g.out.skip(f.out.len() as int));
            &&& v matches Ok(x) && {
                &&& x.pid == plan.programs[p].pcr_pid
                &&& x.adaptation_field matches Some(af) && {
                    &&& af.discontinuity_indicator == f.programs[p].discontinuity
                    &&& af.pcr_base == Some(base)
                    &&& af.pcr_extension == Some(ext)
                }
            }
            &&& !g.programs[p].discontinuity
        }),
{
    let t = plan.programs[p].pcr_track->0;
    let cc = ((f.tracks[t as int].cc + 15) % 16) as u8;
    let pid = plan.programs[p].pcr_pid;
    let packet = pcr_packet(pid, cc, f.programs[p].discontinuity, base, ext);
    lemma_pcr_packet_read_back(pid, cc, f.programs[p].discontinuity, base, ext);
    let g = f.pcr_put(plan, p, base, ext);
    assert(g.out.skip(f.out.len() as int) =~= packet);
}

/// Between two byte positions the clock advances by the time that the bytes take
/// at the configured rate, to within one tick; exactly so where that time is a
/// whole number of ticks from the start of the clock on.
pub proof fn lemma_clock_keeps_rate(p: crate::muxer::flow::PacerView, a: int, b: int)
    requires
        p.rate >= 1,
        p.anchor is Some,
        a <= b,
    ensures
        ({
            let ticks = p.time_at(b) - p.time_at(a);
            let bytes = (b - a) * TICKS_PER_BYTE_RATE;
            let start = (p.anchor->0).0;
            &&& -p.rate < ticks * p.rate - bytes < p.rate
            &&& (a - start) * TICKS_PER_BYTE_RATE % p.rate == 0 && (b - start)
                * TICKS_PER_BYTE_RATE % p.rate == 0 ==> ticks * p.rate == bytes
        }),
{
    let start = (p.anchor->0).0;
    let x = (a - start) * TICKS_PER_BYTE_RATE;
    let y = (b - start) * TICKS_PER_BYTE_RATE;
    vstd::arithmetic::div_mod::lemma_fundamental_div_mod(x, p.rate);
    vstd::arithmetic::div_mod::lemma_fundamental_div_mod(y, p.rate);
    vstd::arithmetic::div_mod::lemma_mod_bound(x, p.rate);
    vstd::arithmetic::div_mod::lemma_mod_bound(y, p.rate);
    let ticks = p.time_at(b) - p.time_at(a);
    assert(ticks == y / p.rate - x / p.rate);
    assert(ticks * p.rate == p.rate * (y / p.rate) - p.rate * (x / p.rate)) by (nonlinear_arith)
        requires
            ticks == y / p.rate - x / p.rate,
    ;
    assert(y - x == (b - a) * TICKS_PER_BYTE_RATE);
}

} // verus!
