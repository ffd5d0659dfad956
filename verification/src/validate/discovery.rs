//! First pass of a validation: the programs, PCR PIDs and audio PIDs that the
//! tables name.
use std::collections::{BTreeMap, BTreeSet};
use vstd::prelude::*;

use crate::bytes::low13;
use crate::error::TsError;
use crate::packet::parse::{TsPacket, TsPacketView};
use crate::psi::assembler::{bytes_of, cut, Assembly, PsiSectionAssembler};
use crate::psi::entries::{loop_entries, LoopEntry};
use crate::psi::section::{section_body, section_error, section_total, MAX_PSI_SECTION_LEN};
use crate::psi::tables::{
    pat_programs, pmt_error, pmt_loop, ProgramAssociationTable, ProgramMapTable, PAT_PID,
    PAT_TABLE_ID,
};
use crate::stream_type::{is_audio_byte, lemma_audio_by_byte, StreamType};

verus! {

/// The null PID; its packets are padding.
pub const NULL_PID: u16 = 0x1FFF;

/// What the packets so far have told of the programs.
#[verifier::ext_equal]
pub struct Discovery {
    /// Reassembly on the PAT's PID.
    pub pat: Assembly,
    /// Reassemblies on the PIDs of PMTs.
    pub pmts: Map<u16, Assembly>,
    /// PIDs that PATs name for PMTs.
    pub pmt_pids: Set<u16>,
    /// `(program_number, PID)` pairs, each program once.
    pub programs: Seq<(u16, u16)>,
    /// PCR PIDs that PMTs name, each once.
    pub pcr_pids: Seq<u16>,
    /// PIDs that PMTs type as audio.
    pub audio_pids: Set<u16>,
    /// Valid PAT sections.
    pub pat_sections: nat,
    /// Sections that are not valid.
    pub bad_sections: nat,
}

/// A reassembly that has seen nothing.
pub open spec fn no_assembly() -> Assembly {
    Assembly { pending: Seq::empty(), last_cc: None }
}

/// Program `n` is listed in `programs`.
pub open spec fn lists(programs: Seq<(u16, u16)>, n: u16) -> bool {
    exists|i: int| 0 <= i < programs.len() && (#[trigger] programs[i]).0 == n
}

/// The list `programs`, extended by the programs of `pairs` that it lacks.
/// Program 0 is the network entry.
pub open spec fn programs_with(
    programs: Seq<(u16, u16)>,
    pairs: Seq<(u16, u16)>,
) -> Seq<(u16, u16)>
    decreases pairs.len(),
{
    if pairs.len() == 0 {
        programs
    } else {
        let so_far = programs_with(programs, pairs.drop_last());
        if pairs.last().0 == 0 || lists(so_far, pairs.last().0) {
            so_far
        } else {
            so_far.push(pairs.last())
        }
    }
}

/// The PIDs of `pairs`, the network entry left out.
pub open spec fn pids_with(pids: Set<u16>, pairs: Seq<(u16, u16)>) -> Set<u16>
    decreases pairs.len(),
{
    if pairs.len() == 0 {
        pids
    } else {
        let so_far = pids_with(pids, pairs.drop_last());
        if pairs.last().0 == 0 {
            so_far
        } else {
            so_far.insert(pairs.last().1)
        }
    }
}

/// The PIDs `pids` and those of the audio streams among PMT entries `es`.
pub open spec fn audio_with(pids: Set<u16>, es: Seq<LoopEntry>) -> Set<u16>
    decreases es.len(),
{
    if es.len() == 0 {
        pids
    } else {
        let so_far = audio_with(pids, es.drop_last());
        if is_audio_byte(es.last().head[0]) {
            so_far.insert(low13(es.last().head[1], es.last().head[2]))
        } else {
            so_far
        }
    }
}

impl Discovery {
    /// Before any packet.
    pub open spec fn start() -> Discovery {
        Discovery {
            pat: no_assembly(),
            pmts: Map::empty(),
            pmt_pids: Set::empty(),
            programs: Seq::empty(),
            pcr_pids: Seq::empty(),
            audio_pids: Set::empty(),
            pat_sections: 0,
            bad_sections: 0,
        }
    }

    /// One more bad section.
    pub open spec fn with_bad(self) -> Discovery {
        Discovery { bad_sections: self.bad_sections + 1, ..self }
    }

    /// After section `s` of the PAT's PID.
    pub open spec fn with_pat(self, s: Seq<u8>) -> Discovery {
        if section_error(s, PAT_TABLE_ID) is Some {
            self.with_bad()
        } else {
            let pairs = pat_programs(section_body(s));
            Discovery {
                programs: programs_with(self.programs, pairs),
                pmt_pids: pids_with(self.pmt_pids, pairs),
                pat_sections: self.pat_sections + 1,
                ..self
            }
        }
    }

    /// After section `s` of a PMT's PID.
    pub open spec fn with_pmt(self, s: Seq<u8>) -> Discovery {
        if pmt_error(s) is Some {
            self.with_bad()
        } else {
            let body = section_body(s);
            let pcr = low13(body[0], body[1]);
            Discovery {
                pcr_pids: if pcr == NULL_PID || self.pcr_pids.contains(pcr) {
                    self.pcr_pids
                } else {
                    self.pcr_pids.push(pcr)
                },
                audio_pids: audio_with(self.audio_pids, loop_entries(pmt_loop(body), 5)->Ok_0),
                ..self
            }
        }
    }

    /// After PAT sections `v`.
    pub open spec fn with_pats(self, v: Seq<Seq<u8>>) -> Discovery
        decreases v.len(),
    {
        if v.len() == 0 {
            self
        } else {
            self.with_pats(v.drop_last()).with_pat(v.last())
        }
    }

    /// After PMT sections `v`.
    pub open spec fn with_pmts(self, v: Seq<Seq<u8>>) -> Discovery
        decreases v.len(),
    {
        if v.len() == 0 {
            self
        } else {
            self.with_pmts(v.drop_last()).with_pmt(v.last())
        }
    }

    /// Reassembly on PID `pid`.
    pub open spec fn assembly(self, pid: u16) -> Assembly {
        if self.pmts.contains_key(pid) { self.pmts[pid] } else { no_assembly() }
    }

    /// After packet `p`.
    pub open spec fn with_packet(self, p: TsPacketView) -> Discovery {
        let cc = p.continuity_counter;
        if p.payload.len() == 0 {
            self
        } else if p.pid == PAT_PID {
            let g = self.pat.gathered(p.payload, p.payload_unit_start, cc);
            let d = Discovery { pat: self.pat.fed(p.payload, p.payload_unit_start, cc), ..self };
            if g.error is Some { d.with_bad() } else { d.with_pats(g.sections) }
        } else if self.pmt_pids.contains(p.pid) {
            let a = self.assembly(p.pid);
            let g = a.gathered(p.payload, p.payload_unit_start, cc);
            let d = Discovery {
                pmts: self.pmts.insert(p.pid, a.fed(p.payload, p.payload_unit_start, cc)),
                ..self
            };
            if g.error is Some { d.with_bad() } else { d.with_pmts(g.sections) }
        } else {
            self
        }
    }
}

/// State of the first pass.
pub(crate) struct Finder {
    pub pat: PsiSectionAssembler,
    pub pmts: BTreeMap<u16, PsiSectionAssembler>,
    pub pmt_pids: BTreeSet<u16>,
    pub programs: Vec<(u16, u16)>,
    pub pcr_pids: Vec<u16>,
    pub audio_pids: BTreeSet<u16>,
    pub pat_sections: u64,
    pub bad_sections: u64,
}

impl Finder {
    /// `self` stands for `d`.
    pub(crate) open spec fn tracks(self, d: Discovery) -> bool {
        &&& self.pat@ == d.pat
        &&& self.pmts@.dom() == d.pmts.dom()
        &&& forall|k: u16| #[trigger] d.pmts.contains_key(k) ==> self.pmts@[k]@ == d.pmts[k]
        &&& self.pmt_pids@ == d.pmt_pids
        &&& self.programs@ == d.programs
        &&& self.pcr_pids@ == d.pcr_pids
        &&& self.audio_pids@ == d.audio_pids
        &&& self.pat_sections == d.pat_sections
        &&& self.bad_sections == d.bad_sections
    }

    pub(crate) fn new() -> (r: Self)
        ensures
            r.tracks(Discovery::start()),
    {
        Finder {
            pat: PsiSectionAssembler::new(),
            pmts: BTreeMap::new(),
            pmt_pids: BTreeSet::new(),
            programs: Vec::new(),
            pcr_pids: Vec::new(),
            audio_pids: BTreeSet::new(),
            pat_sections: 0,
            bad_sections: 0,
        }
    }

    fn lists_program(&self, n: u16) -> (r: bool)
        ensures
            r == lists(self.programs@, n),
    {
        let mut i: usize = 0;
        while i < self.programs.len()
            invariant
                i <= self.programs@.len(),
                forall|j: int| 0 <= j < i ==> (#[trigger] self.programs@[j]).0 != n,
            decreases self.programs@.len() - i,
        {
            if self.programs[i].0 == n {
                assert(self.programs@[i as int].0 == n);
                return true;
            }
            i += 1;
        }
        false
    }

    fn names_pcr(&self, pid: u16) -> (r: bool)
        ensures
            r == self.pcr_pids@.contains(pid),
    {
        let mut i: usize = 0;
        while i < self.pcr_pids.len()
            invariant
                i <= self.pcr_pids@.len(),
                forall|j: int| 0 <= j < i ==> self.pcr_pids@[j] != pid,
            decreases self.pcr_pids@.len() - i,
        {
            if self.pcr_pids[i] == pid {
                return true;
            }
            i += 1;
        }
        false
    }

    /// Take in the programs of a PAT.
    fn list(&mut self, pairs: &Vec<(u16, u16)>)
        ensures
            final(self).programs@ == programs_with(old(self).programs@, pairs@),
            final(self).pmt_pids@ == pids_with(old(self).pmt_pids@, pairs@),
            final(self).pat == old(self).pat,
            final(self).pmts == old(self).pmts,
            final(self).pcr_pids == old(self).pcr_pids,
            final(self).audio_pids == old(self).audio_pids,
            final(self).pat_sections == old(self).pat_sections,
            final(self).bad_sections == old(self).bad_sections,
    {
        let mut i: usize = 0;
        assert(pairs@.take(0) =~= Seq::<(u16, u16)>::empty());
        while i < pairs.len()
            invariant
                i <= pairs@.len(),
                self.programs@ == programs_with(old(self).programs@, pairs@.take(i as int)),
                self.pmt_pids@ == pids_with(old(self).pmt_pids@, pairs@.take(i as int)),
                self.pat == old(self).pat,
                self.pmts == old(self).pmts,
                self.pcr_pids == old(self).pcr_pids,
                self.audio_pids == old(self).audio_pids,
                self.pat_sections == old(self).pat_sections,
                self.bad_sections == old(self).bad_sections,
            decreases pairs@.len() - i,
        {
            assert(pairs@.take(i + 1).drop_last() =~= pairs@.take(i as int));
            let (n, pid): (u16, u16) = pairs[i];
            if n != 0 {
                if !self.lists_program(n) {
                    self.programs.push((n, pid));
                }
                self.pmt_pids.insert(pid);
            }
            i += 1;
        }
        assert(pairs@.take(i as int) =~= pairs@);
    }

    /// Take in a section of the PAT's PID.
    fn take_pat(&mut self, section: &Vec<u8>, d: Ghost<Discovery>)
        requires
            old(self).tracks(d@),
            d@.pat_sections + d@.bad_sections < u64::MAX,
        ensures
            final(self).tracks(d@.with_pat(section@)),
    {
        match ProgramAssociationTable::parse(section.as_slice()) {
            Ok(pat) => {
                self.pat_sections = self.pat_sections + 1;
                self.list(&pat.programs);
            },
            Err(_) => {
                self.bad_sections = self.bad_sections + 1;
            },
        }
    }

    /// Take in a section of a PMT's PID.
    fn take_pmt(&mut self, section: &Vec<u8>, d: Ghost<Discovery>)
        requires
            old(self).tracks(d@),
            d@.pat_sections + d@.bad_sections < u64::MAX,
        ensures
            final(self).tracks(d@.with_pmt(section@)),
    {
        match ProgramMapTable::parse(section.as_slice()) {
            Ok(pmt) => {
                if pmt.pcr_pid != NULL_PID && !self.names_pcr(pmt.pcr_pid) {
                    self.pcr_pids.push(pmt.pcr_pid);
                }
                let ghost es = loop_entries(pmt_loop(section_body(section@)), 5)->Ok_0;
                let ghost before = self.audio_pids@;
                let ghost this = *self;
                let mut i: usize = 0;
                assert(es.take(0) =~= Seq::<LoopEntry>::empty());
                while i < pmt.streams.len()
                    invariant
                        i <= pmt.streams@.len(),
                        pmt.streams@.len() == es.len(),
                        forall|j: int|
                            0 <= j < es.len() ==> (#[trigger] pmt.streams@[j]).reads(es[j]),
                        self.audio_pids@ == audio_with(before, es.take(i as int)),
                        self.pat == this.pat,
                        self.pmts == this.pmts,
                        self.pmt_pids == this.pmt_pids,
                        self.programs == this.programs,
                        self.pcr_pids == this.pcr_pids,
                        self.pat_sections == this.pat_sections,
                        self.bad_sections == this.bad_sections,
                    decreases pmt.streams@.len() - i,
                {
                    assert(es.take(i + 1).drop_last() =~= es.take(i as int));
                    assert(pmt.streams@[i as int].reads(es[i as int]));
                    let t: StreamType = StreamType::from_raw(pmt.streams[i].stream_type);
                    proof {
                        lemma_audio_by_byte(t);
                    }
                    if t.is_audio() {
                        self.audio_pids.insert(pmt.streams[i].elementary_pid);
                    }
                    i += 1;
                }
                assert(es.take(i as int) =~= es);
            },
            Err(_) => {
                self.bad_sections = self.bad_sections + 1;
            },
        }
    }

    /// Take in a packet.
    pub(crate) fn take_packet(&mut self, p: &TsPacket<'_>, d: Ghost<Discovery>)
        requires
            old(self).tracks(d@),
            p@.payload.len() <= 184,
            d@.pat_sections + d@.bad_sections + 188 < u64::MAX,
        ensures
            final(self).tracks(d@.with_packet(p@)),
            d@.with_packet(p@).pat_sections + d@.with_packet(p@).bad_sections <= d@.pat_sections
                + d@.bad_sections + 188,
    {
        if p.payload.len() == 0 {
            return;
        }
        let cc: u8 = p.continuity_counter;
        if p.pid == PAT_PID {
            let ghost g = d@.pat.gathered(p@.payload, p@.payload_unit_start, cc);
            let ghost d1 = Discovery {
                pat: d@.pat.fed(p@.payload, p@.payload_unit_start, cc),
                ..d@
            };
            proof {
                lemma_gathered_count(d@.pat, p@.payload, p@.payload_unit_start, cc);
                lemma_pats_count(d1, g.sections);
            }
            match self.pat.feed(p.payload, p.payload_unit_start, cc) {
                Ok(sections) => {
                    assert(self.tracks(d1));
                    self.take_pats(&sections, Ghost(d1));
                },
                Err(_) => {
                    self.bad_sections = self.bad_sections + 1;
                },
            }
        } else if self.pmt_pids.contains(&p.pid) {
            let ghost a = d@.assembly(p.pid);
            let ghost g = a.gathered(p@.payload, p@.payload_unit_start, cc);
            let ghost d1 = Discovery {
                pmts: d@.pmts.insert(p.pid, a.fed(p@.payload, p@.payload_unit_start, cc)),
                ..d@
            };
            proof {
                lemma_gathered_count(a, p@.payload, p@.payload_unit_start, cc);
                lemma_pmts_count(d1, g.sections);
            }
            let mut joint: PsiSectionAssembler = match self.pmts.remove(&p.pid) {
                Some(x) => x,
                None => PsiSectionAssembler::new(),
            };
            assert(joint@ == a);
            let fed: Result<Vec<Vec<u8>>, TsError> = joint.feed(
                p.payload,
                p.payload_unit_start,
                cc,
            );
            self.pmts.insert(p.pid, joint);
            assert(self.pmts@.dom() =~= d1.pmts.dom());
            assert(self.tracks(d1));
            match fed {
                Ok(sections) => {
                    self.take_pmts(&sections, Ghost(d1));
                },
                Err(_) => {
                    self.bad_sections = self.bad_sections + 1;
                },
            }
        }
    }

    fn take_pats(&mut self, sections: &Vec<Vec<u8>>, d: Ghost<Discovery>)
        requires
            old(self).tracks(d@),
            d@.pat_sections + d@.bad_sections + sections@.len() < u64::MAX,
        ensures
            final(self).tracks(d@.with_pats(bytes_of(sections@))),
    {
        let ghost v = bytes_of(sections@);
        let mut i: usize = 0;
        assert(v.take(0) =~= Seq::<Seq<u8>>::empty());
        while i < sections.len()
            invariant
                i <= sections@.len(),
                v == bytes_of(sections@),
                self.tracks(d@.with_pats(v.take(i as int))),
                d@.pat_sections + d@.bad_sections + sections@.len() < u64::MAX,
            decreases sections@.len() - i,
        {
            proof {
                assert(v.take(i + 1).drop_last() =~= v.take(i as int));
                lemma_pats_count(d@, v.take(i as int));
            }
            self.take_pat(&sections[i], Ghost(d@.with_pats(v.take(i as int))));
            i += 1;
        }
        assert(v.take(i as int) =~= v);
    }

    fn take_pmts(&mut self, sections: &Vec<Vec<u8>>, d: Ghost<Discovery>)
        requires
            old(self).tracks(d@),
            d@.pat_sections + d@.bad_sections + sections@.len() < u64::MAX,
        ensures
            final(self).tracks(d@.with_pmts(bytes_of(sections@))),
    {
        let ghost v = bytes_of(sections@);
        let mut i: usize = 0;
        assert(v.take(0) =~= Seq::<Seq<u8>>::empty());
        while i < sections.len()
            invariant
                i <= sections@.len(),
                v == bytes_of(sections@),
                self.tracks(d@.with_pmts(v.take(i as int))),
                d@.pat_sections + d@.bad_sections + sections@.len() < u64::MAX,
            decreases sections@.len() - i,
        {
            proof {
                assert(v.take(i + 1).drop_last() =~= v.take(i as int));
                lemma_pmts_count(d@, v.take(i as int));
            }
            self.take_pmt(&sections[i], Ghost(d@.with_pmts(v.take(i as int))));
            i += 1;
        }
        assert(v.take(i as int) =~= v);
    }
}

proof fn lemma_cut_count(rest: Seq<u8>)
    ensures
        3 * cut(rest).sections.len() <= rest.len(),
    decreases rest.len(),
{
    let total = section_total(rest);
    if rest.len() >= 3 && rest[0] != 0xFF && total <= MAX_PSI_SECTION_LEN && rest.len() >= total {
        lemma_cut_count(rest.skip(total));
    }
}

proof fn lemma_gathered_count(a: Assembly, payload: Seq<u8>, pusi: bool, cc: u8)
    ensures
        3 * a.gathered(payload, pusi, cc).sections.len() <= payload.len() + 3,
{
    if pusi && payload.len() > 0 && payload[0] <= payload.len() - 1 {
        lemma_cut_count(payload.skip(1 + payload[0] as int));
    }
}

proof fn lemma_pats_count(d: Discovery, v: Seq<Seq<u8>>)
    ensures
        d.with_pats(v).pat_sections + d.with_pats(v).bad_sections == d.pat_sections + d.bad_sections
            + v.len(),
    decreases v.len(),
{
    if v.len() > 0 {
        lemma_pats_count(d, v.drop_last());
    }
}

proof fn lemma_pmts_count(d: Discovery, v: Seq<Seq<u8>>)
    ensures
        d.with_pmts(v).pat_sections == d.pat_sections,
        d.with_pmts(v).bad_sections <= d.bad_sections + v.len(),
    decreases v.len(),
{
    if v.len() > 0 {
        lemma_pmts_count(d, v.drop_last());
    }
}

} // verus!
