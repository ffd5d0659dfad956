//! Writing sections and standalone clock references.
use vstd::prelude::*;

use crate::muxer::flow::{
    position, Flow, FlowView, PacerView, Plan, PlanView, ProgramFlow, Slot, TableCounters,
    TableView, CBR_PCR_INTERVAL_27MHZ, SYS_TB_KEY, SYS_TB_RX, TICKS_PER_BYTE_RATE,
};
use crate::muxer::packets::{pcr_packet, psi_packet, psi_take, push_pcr_packet, push_psi_packet};
use crate::muxer::pes::{ring, to_ring};

verus! {

/// The buffer that a section on `pid` goes through: the pooled one for the system
/// branch, its own for any other PID.
pub open spec fn tb_key(plan: PlanView, pid: u16) -> u16 {
    if plan.is_system(pid) { SYS_TB_KEY } else { pid }
}

/// Largest distance of PCRs on the 90 kHz time line that is not filled up.
pub const PCR_MAX_INTERVAL_90K: i64 = 3600;

/// Step by which a gap is filled up.
pub const PCR_STEP_90K: i64 = 2700;

/// A PCR is 10 ms behind the PTS it goes with, and not negative.
pub open spec fn guarded(pts: i64) -> i64 {
    if pts >= 900 { (pts - 900) as i64 } else { 0 }
}

pub(crate) fn guard(pts: i64) -> (r: i64)
    ensures
        r == guarded(pts),
        r >= 0,
{
    if pts >= 900 {
        pts - 900
    } else {
        0
    }
}

impl FlowView {
    /// The continuity counter of a table's next packet.
    pub open spec fn counter(self, slot: Slot) -> u8 {
        match slot {
            Slot::Pat => self.table_cc.pat,
            Slot::Pmt(p) => self.pmt_cc[p as int],
            Slot::Sdt => self.table_cc.sdt,
            Slot::Nit => self.table_cc.nit,
            Slot::Eit => self.table_cc.eit,
        }
    }

    /// With the next continuity counter of a table.
    pub open spec fn count_table(self, slot: Slot) -> FlowView {
        let next = ((self.counter(slot) + 1) % 16) as u8;
        match slot {
            Slot::Pat => FlowView {
                table_cc: TableCounters { pat: next, ..self.table_cc },
                ..self
            },
            Slot::Pmt(p) => FlowView { pmt_cc: self.pmt_cc.update(p as int, next), ..self },
            Slot::Sdt => FlowView {
                table_cc: TableCounters { sdt: next, ..self.table_cc },
                ..self
            },
            Slot::Nit => FlowView {
                table_cc: TableCounters { nit: next, ..self.table_cc },
                ..self
            },
            Slot::Eit => FlowView {
                table_cc: TableCounters { eit: next, ..self.table_cc },
                ..self
            },
        }
    }

    /// After the rest `rest` of a section on `pid`: packets through buffer `key`,
    /// the first one a start packet if `start`.
    pub open spec fn section_put(
        self,
        pid: u16,
        slot: Slot,
        key: u16,
        rest: Seq<u8>,
        start: bool,
    ) -> FlowView
        decreases rest.len() + (if start { 1int } else { 0 }),
    {
        if !start && rest.len() == 0 {
            self
        } else {
            let a = self.tb_paced(key, SYS_TB_RX as int);
            let b = if key == SYS_TB_KEY { a.bsys_paced() } else { a };
            b.put(psi_packet(pid, b.counter(slot), start, rest)).count_table(slot).section_put(
                pid,
                slot,
                key,
                rest.skip(psi_take(start, rest.len() as int)),
                false,
            )
        }
    }

    /// After a section.
    pub open spec fn table_put(self, plan: PlanView, t: TableView) -> FlowView {
        self.section_put(t.pid, t.slot, tb_key(plan, t.pid), t.section, true)
    }

    /// After the first `n` sections of the layout.
    pub open spec fn tables_put(self, plan: PlanView, n: int) -> FlowView
        decreases n,
    {
        if n <= 0 {
            self
        } else {
            self.tables_put(plan, n - 1).table_put(plan, plan.tables[n - 1])
        }
    }

    /// With no discontinuity to signal in program `p`.
    pub open spec fn signalled(self, p: int) -> FlowView {
        FlowView {
            programs: self.programs.update(
                p,
                ProgramFlow { discontinuity: false, ..self.programs[p] },
            ),
            ..self
        }
    }

    /// With PCR base `base` as the last one of program `p`.
    pub open spec fn with_last_pcr(self, p: int, base: i64) -> FlowView {
        FlowView {
            programs: self.programs.update(
                p,
                ProgramFlow { last_pcr: Some(base), ..self.programs[p] },
            ),
            ..self
        }
    }

    /// After a packet with nothing but a PCR of program `p`. Its continuity
    /// counter is that of the last packet with payload.
    pub open spec fn pcr_put(self, plan: PlanView, p: int, base: u64, ext: u16) -> FlowView {
        let prog = plan.programs[p];
        match prog.pcr_track {
            None => self.signalled(p),
            Some(t) => self.put(
                pcr_packet(
                    prog.pcr_pid,
                    ((self.tracks[t as int].cc + 15) % 16) as u8,
                    self.programs[p].discontinuity,
                    base,
                    ext,
                ),
            ).signalled(p),
        }
    }

    /// After PCRs, each within the interval of the one before it, until `target`
    /// is within the interval of the last one.
    pub open spec fn chain_put(self, plan: PlanView, p: int, target: int) -> FlowView
        decreases
            (if self.programs[p].last_pcr is Some {
                target - self.programs[p].last_pcr->0
            } else {
                0
            }),
    {
        match self.programs[p].last_pcr {
            None => self,
            Some(last) => if target - last <= PCR_MAX_INTERVAL_90K || !(0 <= p
                < self.programs.len()) || target > i64::MAX {
                self
            } else {
                let next = (last + PCR_STEP_90K) as i64;
                let base = ring(if next > 0 { next } else { 0 });
                self.pcr_put(plan, p, base, 0).with_last_pcr(p, next).chain_put(plan, p, target)
            },
        }
    }

    /// After the PCRs that program `p` owes before a frame of another stream with
    /// PTS `pts`.
    pub open spec fn periodic_put(self, plan: PlanView, p: int, pts: i64) -> FlowView {
        match self.programs[p].last_pcr {
            None => self.pcr_put(plan, p, ring(guarded(pts)), 0).with_last_pcr(p, guarded(pts)),
            Some(_) => self.chain_put(plan, p, guarded(pts) as int),
        }
    }

    /// With byte position `b` as that of the last PCR of program `p`.
    pub open spec fn with_pcr_at(self, p: int, b: int) -> FlowView {
        let q = self.pacer->0;
        FlowView {
            pacer: Some(PacerView { last_pcr: q.last_pcr.update(p, Some(b)), ..q }),
            ..self
        }
    }

    /// Program `p` owes a PCR on the byte clock.
    pub open spec fn pcr_due(self, p: int) -> bool {
        let q = self.pacer->0;
        match q.last_pcr[p] {
            None => true,
            Some(b) => (self.pos() - b) * TICKS_PER_BYTE_RATE / q.rate >= CBR_PCR_INTERVAL_27MHZ,
        }
    }

    /// After the PCR that program `p` owes on the byte clock, if any.
    pub open spec fn clock_put(self, plan: PlanView, p: int) -> FlowView {
        if self.anchored() && self.pcr_due(p) {
            let (base, ext) = self.pcr_now();
            self.pcr_put(plan, p, base, ext).with_pcr_at(p, self.pos())
        } else {
            self
        }
    }

    /// After the PCRs that the first `n` programs owe on the byte clock.
    pub open spec fn clocks_put(self, plan: PlanView, n: int) -> FlowView
        decreases n,
    {
        if n <= 0 {
            self
        } else {
            self.clocks_put(plan, n - 1).clock_put(plan, n - 1)
        }
    }
}

impl Plan {
    /// The buffer that a section on `pid` goes through.
    fn buffer_of(&self, pid: u16) -> (r: u16)
        ensures
            r == tb_key(self@, pid),
    {
        if pid <= 1 {
            return SYS_TB_KEY;
        }
        let mut i: usize = 0;
        while i < self.programs.len()
            invariant
                i <= self.programs@.len(),
                pid > 1,
                forall|j: int| 0 <= j < i ==> (#[trigger] self.programs@[j]).pmt_pid != pid,
            decreases self.programs@.len() - i,
        {
            if self.programs[i].pmt_pid == pid {
                assert(self@.programs[i as int].pmt_pid == pid);
                return SYS_TB_KEY;
            }
            i += 1;
        }
        pid
    }
}

impl Flow {
    /// Write a section: a start packet with a pointer field, then packets until
    /// the section is written, the last one stuffed.
    pub(crate) fn write_psi_packet(&mut self, plan: &Plan, pid: u16, slot: Slot, section: &[u8])
        requires
            old(self)@.wf(plan@),
            plan@.has_slot(slot),
        ensures
            final(self)@ == old(self)@.section_put(
                pid,
                slot,
                tb_key(plan@, pid),
                section@,
                true,
            ),
            final(self)@.wf(plan@),
            final(self)@.follows(old(self)@),
    {
        let key: u16 = plan.buffer_of(pid);
        let mut at: usize = 0;
        let mut start: bool = true;
        assert(section@.skip(0) =~= section@);
        while start || at < section.len()
            invariant
                self@.wf(plan@),
                plan@.has_slot(slot),
                at <= section@.len(),
                self@.section_put(pid, slot, key, section@.skip(at as int), start)
                    == old(self)@.section_put(pid, slot, key, section@, true),
                self@.follows(old(self)@),
            decreases section@.len() - at + (if start { 1int } else { 0 }),
        {
            let ghost rest = section@.skip(at as int);
            self.pace_tb(key, SYS_TB_RX, Ghost(plan@));
            if key == SYS_TB_KEY {
                self.pace_bsys(Ghost(plan@));
            }
            let ghost b = self@;
            let cc: u8 = match slot {
                Slot::Pat => self.table_cc.pat,
                Slot::Pmt(p) => self.pmt_cc[p],
                Slot::Sdt => self.table_cc.sdt,
                Slot::Nit => self.table_cc.nit,
                Slot::Eit => self.table_cc.eit,
            };
            assert(cc == self@.counter(slot) && cc < 16);
            let tail: &[u8] = &section[at..section.len()];
            assert(tail@ =~= rest);
            let n: usize = push_psi_packet(&mut self.out, pid, cc, start, tail);
            let next: u8 = (cc + 1) % 16;
            match slot {
                Slot::Pat => {
                    self.table_cc.pat = next;
                },
                Slot::Pmt(p) => {
                    self.pmt_cc.set(p, next);
                },
                Slot::Sdt => {
                    self.table_cc.sdt = next;
                },
                Slot::Nit => {
                    self.table_cc.nit = next;
                },
                Slot::Eit => {
                    self.table_cc.eit = next;
                },
            }
            proof {
                assert(self@ =~= b.put(psi_packet(pid, cc, start, rest)).count_table(slot));
                assert(rest.skip(n as int) =~= section@.skip(at + n));
            }
            at = at + n;
            start = false;
        }
    }

    /// Write every table of the layout.
    pub(crate) fn write_tables(&mut self, plan: &Plan)
        requires
            plan@.wf(),
            old(self)@.wf(plan@),
        ensures
            final(self)@ == old(self)@.tables_put(plan@, plan@.tables.len() as int),
            final(self)@.wf(plan@),
            final(self)@.follows(old(self)@),
    {
        let mut i: usize = 0;
        while i < plan.tables.len()
            invariant
                i <= plan.tables@.len(),
                plan@.wf(),
                self@.wf(plan@),
                self@ == old(self)@.tables_put(plan@, i as int),
                self@.follows(old(self)@),
            decreases plan.tables@.len() - i,
        {
            let t: &crate::muxer::flow::Table = &plan.tables[i];
            assert(plan@.tables[i as int] == t@);
            self.write_psi_packet(plan, t.pid, t.slot, t.section.as_slice());
            i += 1;
        }
    }

    /// Write a packet with nothing but a PCR of program `p`.
    pub(crate) fn emit_pcr_only(&mut self, plan: &Plan, p: usize, base: u64, ext: u16)
        requires
            plan@.wf(),
            old(self)@.wf(plan@),
            p < plan.programs@.len(),
            base <= 0x1_FFFF_FFFF,
            ext <= 0x1FF,
        ensures
            final(self)@ == old(self)@.pcr_put(plan@, p as int, base, ext),
            final(self)@.wf(plan@),
            final(self)@.follows(old(self)@),
            final(self)@.pacer == old(self)@.pacer,
    {
        let prog: crate::muxer::flow::ProgramPlan = plan.programs[p];
        assert(plan@.programs[p as int] == prog);
        let mut flow: ProgramFlow = self.programs[p];
        let discontinuity: bool = flow.discontinuity;
        flow.discontinuity = false;
        if let Some(t) = prog.pcr_track {
            let cc: u8 = self.tracks[t].cc;
            assert(self@.tracks[t as int].wf());
            push_pcr_packet(
                &mut self.out,
                prog.pcr_pid,
                (cc + 15) % 16,
                discontinuity,
                base,
                ext,
            );
        }
        self.programs.set(p, flow);
        assert(self@ =~= old(self)@.pcr_put(plan@, p as int, base, ext));
    }

    /// Record a PCR base of program `p`.
    pub(crate) fn note_pcr(&mut self, plan: &Plan, p: usize, base: i64)
        requires
            old(self)@.wf(plan@),
            p < plan.programs@.len(),
        ensures
            final(self)@ == old(self)@.with_last_pcr(p as int, base),
            final(self)@.wf(plan@),
            final(self)@.follows(old(self)@),
            final(self)@.pacer == old(self)@.pacer,
    {
        let mut flow: ProgramFlow = self.programs[p];
        flow.last_pcr = Some(base);
        self.programs.set(p, flow);
        assert(self@ =~= old(self)@.with_last_pcr(p as int, base));
    }

    /// Fill up the PCRs of program `p` so that `target` is within the interval of
    /// the last one.
    pub(crate) fn backfill_pcr_chain(&mut self, plan: &Plan, p: usize, target: i64)
        requires
            plan@.wf(),
            old(self)@.wf(plan@),
            p < plan.programs@.len(),
        ensures
            final(self)@ == old(self)@.chain_put(plan@, p as int, target as int),
            final(self)@.wf(plan@),
            final(self)@.follows(old(self)@),
            final(self)@.pacer == old(self)@.pacer,
    {
        let mut last: i64 = match self.programs[p].last_pcr {
            Some(l) => l,
            None => {
                return;
            },
        };
        while target as i128 - last as i128 > PCR_MAX_INTERVAL_90K as i128
            invariant
                plan@.wf(),
                self@.wf(plan@),
                p < plan.programs@.len(),
                self@.programs[p as int].last_pcr == Some(last),
                self@.chain_put(plan@, p as int, target as int) == old(self)@.chain_put(
                    plan@,
                    p as int,
                    target as int,
                ),
                self@.follows(old(self)@),
                self@.pacer == old(self)@.pacer,
            decreases target - last,
        {
            let next: i64 = last + PCR_STEP_90K;
            let base: u64 = to_ring(if next > 0 { next } else { 0 });
            self.emit_pcr_only(plan, p, base, 0);
            self.note_pcr(plan, p, next);
            last = next;
        }
    }

    /// Write the PCRs that program `p` owes before a frame of another stream with
    /// PTS `pts`.
    pub(crate) fn maybe_emit_periodic_pcr(&mut self, plan: &Plan, p: usize, pts: i64)
        requires
            plan@.wf(),
            old(self)@.wf(plan@),
            p < plan.programs@.len(),
        ensures
            final(self)@ == old(self)@.periodic_put(plan@, p as int, pts),
            final(self)@.wf(plan@),
            final(self)@.follows(old(self)@),
            final(self)@.pacer == old(self)@.pacer,
    {
        let base: i64 = guard(pts);
        if self.programs[p].last_pcr.is_none() {
            self.emit_pcr_only(plan, p, to_ring(base), 0);
            self.note_pcr(plan, p, base);
        } else {
            self.backfill_pcr_chain(plan, p, base);
        }
    }

    /// Record the byte position of a PCR of program `p`.
    pub(crate) fn note_pcr_position(&mut self, plan: &Plan, p: usize, at: u128)
        requires
            old(self)@.wf(plan@),
            old(self).pacer is Some,
            p < plan.programs@.len(),
            at <= old(self)@.pos(),
        ensures
            final(self)@ == old(self)@.with_pcr_at(p as int, at as int),
            final(self)@.wf(plan@),
            final(self)@.follows(old(self)@),
    {
        let ghost before = self@.pacer->0.last_pcr;
        if let Some(mut q) = self.pacer.take() {
            q.last_pcr.set(p, Some(at));
            assert(q@.last_pcr =~= before.update(p as int, Some(at as int)));
            self.pacer = Some(q);
        }
        assert(self@ =~= old(self)@.with_pcr_at(p as int, at as int));
        assert(self@.pacer->0.wf(self@.pos(), plan@.programs.len(), plan@.tracks.len()));
    }

    /// Program `p` owes a PCR on the byte clock.
    fn owes_pcr(&self, plan: &Plan, p: usize) -> (r: bool)
        requires
            self@.wf(plan@),
            self@.anchored(),
            p < plan.programs@.len(),
        ensures
            r == self@.pcr_due(p as int),
    {
        let here: u128 = self.position();
        match &self.pacer {
            Some(q) => {
                assert(q@.last_pcr[p as int] == position(q.last_pcr@[p as int]));
                match q.last_pcr[p] {
                    None => true,
                    Some(b) => {
                        let elapsed: u128 = (here - b) * 216_000_000 / q.rate as u128;
                        elapsed >= 1_080_000
                    },
                }
            },
            None => true,
        }
    }

    /// Write the PCR that program `p` owes on the byte clock, if any.
    fn maybe_pcr(&mut self, plan: &Plan, p: usize)
        requires
            plan@.wf(),
            old(self)@.wf(plan@),
            p < plan.programs@.len(),
        ensures
            final(self)@ == old(self)@.clock_put(plan@, p as int),
            final(self)@.wf(plan@),
            final(self)@.follows(old(self)@),
    {
        let running: bool = match &self.pacer {
            Some(q) => q.anchor.is_some(),
            None => false,
        };
        if !running {
            return;
        }
        if self.owes_pcr(plan, p) {
            let here: u128 = self.position();
            let (base, ext): (u64, u16) = self.pcr_fields(Ghost(plan@));
            self.emit_pcr_only(plan, p, base, ext);
            self.note_pcr_position(plan, p, here);
        }
    }

    /// Write the PCRs that the programs owe on the byte clock.
    pub(crate) fn maybe_pcr_all(&mut self, plan: &Plan)
        requires
            plan@.wf(),
            old(self)@.wf(plan@),
        ensures
            final(self)@ == old(self)@.clocks_put(plan@, plan@.programs.len() as int),
            final(self)@.wf(plan@),
            final(self)@.follows(old(self)@),
    {
        let mut i: usize = 0;
        while i < plan.programs.len()
            invariant
                i <= plan.programs@.len(),
                plan@.wf(),
                self@.wf(plan@),
                self@ == old(self)@.clocks_put(plan@, i as int),
                self@.follows(old(self)@),
            decreases plan.programs@.len() - i,
        {
            self.maybe_pcr(plan, i);
            i += 1;
        }
    }
}

} // verus!
