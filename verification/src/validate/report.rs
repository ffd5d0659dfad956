//! The validation of a whole stream.
use std::collections::{BTreeMap, BTreeSet};
use vstd::prelude::*;

use crate::clock::{Continuity, ContinuityEvent, ContinuityTracker};
use crate::packet::layout::{
    detect_packet_layout, detected_layout, lemma_frame_in_bounds, TsPacketLayout,
};
use crate::packet::parse::{
    clock_base_at, parse_packet_spec, AdaptationField, TsPacket, TS_SYNC_BYTE,
};
use crate::psi::tables::PAT_PID;
use crate::validate::discovery::{Finder, NULL_PID};
use crate::validate::pcr::{PcrReport, PcrState};
use crate::validate::splice::{SpliceRun, SpliceSigns};
use crate::validate::stream::{lemma_count_bound, lemma_pid_count_bound, PidClass, Rule, TsStream};

verus! {

/// How often each rule is broken. A conformant stream has zero everywhere.
#[derive(Debug, Clone, Copy, PartialEq, Eq)]
pub struct ViolationCounts {
    /// Packets with the reserved `adaptation_field_control` '00'.
    pub reserved_afc: u64,
    /// `adaptation_field_length` out of its bound.
    pub bad_af_length: u64,
    /// An OPCR without a PCR.
    pub opcr_without_pcr: u64,
    /// `seamless_splice_flag` without `splicing_point_flag`.
    pub seamless_splice_without_splicing_point: u64,
    /// `random_access_indicator` on a PCR PID without a PCR.
    pub rai_without_pcr_on_pcr_pid: u64,
    /// Dropped packets, and duplicates beyond the first.
    pub continuity_errors: u64,
    /// Packets with `transport_error_indicator`.
    pub transport_error_packets: u64,
    /// PCRs more than 0,1 s after the one before, not signalled.
    pub pcr_interval_exceeded: u64,
    /// PAT and PMT sections that are not valid: CRC, lengths, or table.
    pub bad_psi_sections: u64,
    /// `splice_countdown` values that contradict the packets before them.
    pub splice_countdown_inconsistent: u64,
    /// Seamless splice runs broken off or changed before the splicing point.
    pub seamless_splice_run_broken: u64,
    /// A `splice_type` other than 0 on an audio PID.
    pub nonzero_splice_type_on_audio: u64,
}

impl Default for ViolationCounts {
    fn default() -> (r: Self)
        ensures
            r.all_zero(),
    {
        ViolationCounts {
            reserved_afc: 0,
            bad_af_length: 0,
            opcr_without_pcr: 0,
            seamless_splice_without_splicing_point: 0,
            rai_without_pcr_on_pcr_pid: 0,
            continuity_errors: 0,
            transport_error_packets: 0,
            pcr_interval_exceeded: 0,
            bad_psi_sections: 0,
            splice_countdown_inconsistent: 0,
            seamless_splice_run_broken: 0,
            nonzero_splice_type_on_audio: 0,
        }
    }
}

impl ViolationCounts {
    /// Nothing is counted.
    pub open spec fn all_zero(self) -> bool {
        &&& self.reserved_afc == 0
        &&& self.bad_af_length == 0
        &&& self.opcr_without_pcr == 0
        &&& self.seamless_splice_without_splicing_point == 0
        &&& self.rai_without_pcr_on_pcr_pid == 0
        &&& self.continuity_errors == 0
        &&& self.transport_error_packets == 0
        &&& self.pcr_interval_exceeded == 0
        &&& self.bad_psi_sections == 0
        &&& self.splice_countdown_inconsistent == 0
        &&& self.seamless_splice_run_broken == 0
        &&& self.nonzero_splice_type_on_audio == 0
    }

    /// The counts over the first `n` packets, `bad` bad sections among them.
    pub open spec fn tallies(self, s: TsStream, n: int, bad: nat) -> bool {
        &&& self.reserved_afc == s.count(Rule::ReservedAfc, n)
        &&& self.bad_af_length == s.count(Rule::BadAfLength, n)
        &&& self.opcr_without_pcr == s.count(Rule::OpcrWithoutPcr, n)
        &&& self.seamless_splice_without_splicing_point == s.count(Rule::SeamlessWithoutPoint, n)
        &&& self.rai_without_pcr_on_pcr_pid == s.count(Rule::RaiWithoutPcr, n)
        &&& self.continuity_errors == s.count(Rule::Continuity, n)
        &&& self.transport_error_packets == s.count(Rule::TransportError, n)
        &&& self.pcr_interval_exceeded == s.count(Rule::LatePcr, n)
        &&& self.bad_psi_sections == bad
        &&& self.splice_countdown_inconsistent == s.count(Rule::WrongCountdown, n)
        &&& self.seamless_splice_run_broken == s.count(Rule::BrokenSeamless, n)
        &&& self.nonzero_splice_type_on_audio == s.count(Rule::AudioSpliceType, n)
    }

    /// Every count is zero.
    pub fn is_clean(&self) -> (r: bool)
        ensures
            r == self.all_zero(),
    {
        self.reserved_afc == 0 && self.bad_af_length == 0 && self.opcr_without_pcr == 0
            && self.seamless_splice_without_splicing_point == 0 && self.rai_without_pcr_on_pcr_pid
            == 0 && self.continuity_errors == 0 && self.transport_error_packets == 0
            && self.pcr_interval_exceeded == 0 && self.bad_psi_sections == 0
            && self.splice_countdown_inconsistent == 0 && self.seamless_splice_run_broken == 0
            && self.nonzero_splice_type_on_audio == 0
    }
}

/// Packet statistics of one PID.
#[derive(Debug, Clone, Copy, PartialEq, Eq)]
pub struct PidReport {
    /// Packets.
    pub packets: u64,
    /// Packets that are scrambled.
    pub scrambled: u64,
    /// Continuity errors.
    pub continuity_errors: u64,
    /// Permitted duplicates.
    pub duplicates: u64,
}

impl Default for PidReport {
    fn default() -> (r: Self)
        ensures
            r == (PidReport { packets: 0, scrambled: 0, continuity_errors: 0, duplicates: 0 }),
    {
        PidReport { packets: 0, scrambled: 0, continuity_errors: 0, duplicates: 0 }
    }
}

impl PidReport {
    /// The statistics of `pid` over the first `n` packets.
    pub open spec fn of(s: TsStream, pid: u16, n: int) -> PidReport {
        PidReport {
            packets: s.pid_count(PidClass::Any, pid, n) as u64,
            scrambled: s.pid_count(PidClass::Scrambled, pid, n) as u64,
            continuity_errors: s.pid_count(PidClass::Continuity, pid, n) as u64,
            duplicates: s.pid_count(PidClass::Duplicate, pid, n) as u64,
        }
    }
}

/// What a validation found.
#[derive(Debug, Clone)]
pub struct TsValidationReport {
    /// Framing of the stream; `None` when no sync grid was found, and then the
    /// report covers no packet.
    pub layout: Option<TsPacketLayout>,
    /// Whole packets.
    pub packets: u64,
    /// Packets that do not parse.
    pub unparseable_packets: u64,
    /// Null packets.
    pub null_packets: u64,
    /// `(program_number, PID)` pairs of the PATs, the network entry left out.
    pub programs: Vec<(u16, u16)>,
    /// One record for each PCR PID that a PMT names.
    pub pcr: Vec<PcrReport>,
    /// Statistics of each PID.
    pub pids: BTreeMap<u16, PidReport>,
    /// Broken rules.
    pub violations: ViolationCounts,
    /// Valid PAT sections.
    pub pat_sections: u64,
    /// Largest distance between consecutive PAT starts, in packets.
    pub pat_max_gap_packets: Option<u64>,
}

impl Default for TsValidationReport {
    fn default() -> (r: Self)
        ensures
            r.is_empty(),
    {
        TsValidationReport {
            layout: None,
            packets: 0,
            unparseable_packets: 0,
            null_packets: 0,
            programs: Vec::new(),
            pcr: Vec::new(),
            pids: BTreeMap::new(),
            violations: ViolationCounts::default(),
            pat_sections: 0,
            pat_max_gap_packets: None,
        }
    }
}

impl TsValidationReport {
    /// The report of no packet at all.
    pub open spec fn is_empty(self) -> bool {
        &&& self.layout is None
        &&& self.packets == 0
        &&& self.unparseable_packets == 0
        &&& self.null_packets == 0
        &&& self.programs@ == Seq::<(u16, u16)>::empty()
        &&& self.pcr@ == Seq::<PcrReport>::empty()
        &&& self.pids@ == Map::<u16, PidReport>::empty()
        &&& self.violations.all_zero()
        &&& self.pat_sections == 0
        &&& self.pat_max_gap_packets is None
    }

    /// The report of stream `s`.
    pub open spec fn describes(self, s: TsStream) -> bool {
        let n = s.len() as int;
        let d = s.programs();
        &&& self.layout == Some(s.layout)
        &&& self.packets == n
        &&& self.unparseable_packets == s.count(Rule::Unparseable, n)
        &&& self.null_packets == s.count(Rule::Null, n)
        &&& self.programs@ == d.programs
        &&& self.pcr@.len() == d.pcr_pids.len()
        &&& forall|k: int|
            0 <= k < d.pcr_pids.len() ==> #[trigger] self.pcr@[k] == s.pcr_state(
                d.pcr_pids[k],
                n,
            ).reported()
        &&& forall|pid: u16|
            #[trigger] self.pids@.contains_key(pid) <==> s.pid_count(PidClass::Any, pid, n) > 0
        &&& forall|pid: u16|
            self.pids@.contains_key(pid) ==> #[trigger] self.pids@[pid] == PidReport::of(s, pid, n)
        &&& self.violations.tallies(s, n, d.bad_sections)
        &&& self.pat_sections == d.pat_sections
        &&& self.pat_max_gap_packets == s.pat_gap(n)
    }

    /// No rule is broken and every packet parses.
    pub fn is_conformant(&self) -> (r: bool)
        ensures
            r == (self.violations.all_zero() && self.unparseable_packets == 0),
    {
        self.violations.is_clean() && self.unparseable_packets == 0
    }
}

/// `m` holds the statistics over the first `i` packets.
#[verifier::opaque]
spec fn pids_track(m: Map<u16, PidReport>, s: TsStream, i: int) -> bool {
    &&& forall|pid: u16|
        #[trigger] m.contains_key(pid) <==> s.pid_count(PidClass::Any, pid, i) > 0
    &&& forall|pid: u16|
        m.contains_key(pid) ==> #[trigger] m[pid] == PidReport::of(s, pid, i)
}

/// `m` holds the continuity trackers after the first `i` packets.
#[verifier::opaque]
spec fn counters_track(m: Map<u16, ContinuityTracker>, s: TsStream, i: int) -> bool {
    forall|pid: u16|
        (if #[trigger] m.contains_key(pid) {
            m[pid]@
        } else {
            Continuity::start()
        }) == s.continuity(pid, i)
}

/// `m` holds the splice runs after the first `i` packets.
#[verifier::opaque]
spec fn runs_track(m: Map<u16, SpliceRun>, s: TsStream, i: int) -> bool {
    forall|pid: u16|
        ({
            let run = if #[trigger] m.contains_key(pid) {
                m[pid]
            } else {
                SpliceRun::idle()
            };
            run == s.splice_run(pid, i) && run.wf()
        })
}

/// `v` holds the clocks after the first `i` packets.
#[verifier::opaque]
spec fn clocks_track(v: Seq<PcrState>, s: TsStream, i: int) -> bool {
    &&& v.len() == s.programs().pcr_pids.len()
    &&& forall|k: int|
        0 <= k < v.len() ==> (#[trigger] v[k]) == s.pcr_state(s.programs().pcr_pids[k], i)
            && v[k].wf(i) && v[k].pid == s.programs().pcr_pids[k]
}

/// State of the second pass.
struct Checker {
    unparseable: u64,
    null: u64,
    pids: BTreeMap<u16, PidReport>,
    v: ViolationCounts,
    trackers: BTreeMap<u16, ContinuityTracker>,
    runs: BTreeMap<u16, SpliceRun>,
    pcr: Vec<PcrState>,
}

impl Checker {
    /// `self` stands for the first `i` packets of `s`.
    spec fn tracks(self, s: TsStream, i: int) -> bool {
        &&& self.unparseable == s.count(Rule::Unparseable, i)
        &&& self.null == s.count(Rule::Null, i)
        &&& self.v.tallies(s, i, 0)
        &&& pids_track(self.pids@, s, i)
        &&& counters_track(self.trackers@, s, i)
        &&& runs_track(self.runs@, s, i)
        &&& clocks_track(self.pcr@, s, i)
    }

    fn new(pcr_pids: &Vec<u16>, s: Ghost<TsStream>) -> (r: Self)
        requires
            pcr_pids@ == s@.programs().pcr_pids,
        ensures
            r.tracks(s@, 0),
    {
        proof {
            reveal(pids_track);
            reveal(counters_track);
            reveal(runs_track);
            reveal(clocks_track);
        }
        let mut pcr: Vec<PcrState> = Vec::new();
        let mut k: usize = 0;
        while k < pcr_pids.len()
            invariant
                k <= pcr_pids@.len(),
                pcr@.len() == k,
                pcr_pids@ == s@.programs().pcr_pids,
                forall|j: int|
                    0 <= j < k ==> (#[trigger] pcr@[j]) == s@.pcr_state(pcr_pids@[j], 0)
                        && pcr@[j].wf(0) && pcr@[j].pid == pcr_pids@[j],
            decreases pcr_pids@.len() - k,
        {
            pcr.push(PcrState::new(pcr_pids[k]));
            k += 1;
        }
        Checker {
            unparseable: 0,
            null: 0,
            pids: BTreeMap::new(),
            v: ViolationCounts::default(),
            trackers: BTreeMap::new(),
            runs: BTreeMap::new(),
            pcr,
        }
    }

    /// Classify a packet by its continuity counter.
    fn take_counter(
        &mut self,
        pkt: &TsPacket<'_>,
        has_payload: bool,
        s: Ghost<TsStream>,
        i: Ghost<int>,
    ) -> (event: ContinuityEvent)
        requires
            0 <= i@ < s@.len(),
            s@.counts(i@),
            s@.packet(i@) == pkt@,
            has_payload == s@.has_payload(i@),
            counters_track(old(self).trackers@, s@, i@),
        ensures
            event == s@.event(i@),
            counters_track(final(self).trackers@, s@, i@ + 1),
            *final(self) == (Checker { trackers: final(self).trackers, ..*old(self) }),
    {
        proof {
            reveal(counters_track);
        }
        let pid: u16 = pkt.pid;
        let discontinuity: bool = match &pkt.adaptation_field {
            Some(af) => af.discontinuity_indicator,
            None => false,
        };
        assert(discontinuity == s@.discontinuity(i@));
        assert(self.trackers@.contains_key(pid) || !self.trackers@.contains_key(pid));
        let mut tracker: ContinuityTracker = match self.trackers.remove(&pid) {
            Some(x) => x,
            None => ContinuityTracker::new(),
        };
        assert(tracker@ == s@.continuity(pid, i@));
        let event: ContinuityEvent = tracker.observe(
            pkt.continuity_counter,
            has_payload,
            discontinuity,
        );
        self.trackers.insert(pid, tracker);
        proof {
            assert forall|k: u16|
                (if #[trigger] self.trackers@.contains_key(k) {
                    self.trackers@[k]@
                } else {
                    Continuity::start()
                }) == s@.continuity(k, i@ + 1) by {
                if k != pid {
                    assert(self.trackers@.contains_key(k) == old(self).trackers@.contains_key(k));
                    assert(!s@.on(k, i@));
                }
            }
        }
        event
    }

    /// Record a packet on its PID.
    #[verifier::rlimit(40)]
    #[verifier::spinoff_prover]
    fn take_record(
        &mut self,
        pkt: &TsPacket<'_>,
        event: ContinuityEvent,
        s: Ghost<TsStream>,
        i: Ghost<int>,
    )
        requires
            0 <= i@ < s@.len(),
            s@.len() <= u64::MAX,
            s@.counts(i@),
            s@.packet(i@) == pkt@,
            event == s@.event(i@),
            pids_track(old(self).pids@, s@, i@),
            old(self).v.continuity_errors == s@.count(Rule::Continuity, i@),
            old(self).v.transport_error_packets == s@.count(Rule::TransportError, i@),
        ensures
            pids_track(final(self).pids@, s@, i@ + 1),
            *final(self) == (Checker {
                pids: final(self).pids,
                v: ViolationCounts {
                    continuity_errors: s@.count(Rule::Continuity, i@ + 1) as u64,
                    transport_error_packets: s@.count(Rule::TransportError, i@ + 1) as u64,
                    ..old(self).v
                },
                ..*old(self)
            }),
    {
        proof {
            reveal(pids_track);
        }
        let pid: u16 = pkt.pid;
        proof {
            lemma_count_bound(s@, Rule::Continuity, i@);
            lemma_count_bound(s@, Rule::TransportError, i@);
            lemma_pid_count_bound(s@, PidClass::Scrambled, pid, i@);
            lemma_pid_count_bound(s@, PidClass::Continuity, pid, i@);
            lemma_pid_count_bound(s@, PidClass::Duplicate, pid, i@);
        }
        if pkt.transport_error {
            self.v.transport_error_packets = self.v.transport_error_packets + 1;
        }
        let mut rec: PidReport = match self.pids.remove(&pid) {
            Some(x) => x,
            None => PidReport::default(),
        };
        assert(rec == PidReport::of(s@, pid, i@));
        rec.packets = rec.packets + 1;
        if pkt.transport_scrambling_control != 0 {
            rec.scrambled = rec.scrambled + 1;
        }
        match event {
            ContinuityEvent::Dropped { .. } => {
                rec.continuity_errors = rec.continuity_errors + 1;
                self.v.continuity_errors = self.v.continuity_errors + 1;
            },
            ContinuityEvent::Duplicate => {
                rec.duplicates = rec.duplicates + 1;
            },
            _ => {},
        }
        assert(rec == PidReport::of(s@, pid, i@ + 1));
        self.pids.insert(pid, rec);
        proof {
            assert forall|k: u16|
                #[trigger] self.pids@.contains_key(k) <==> s@.pid_count(PidClass::Any, k, i@ + 1)
                    > 0 by {
                if k != pid {
                    assert(self.pids@.contains_key(k) == old(self).pids@.contains_key(k));
                    assert(!s@.on(k, i@));
                }
            }
            assert forall|k: u16| self.pids@.contains_key(k) implies #[trigger] self.pids@[k]
                == PidReport::of(s@, k, i@ + 1) by {
                if k != pid {
                    assert(old(self).pids@.contains_key(k));
                    assert(self.pids@[k] == old(self).pids@[k]);
                    assert(!s@.on(k, i@));
                }
            }
        }
    }

    /// Check a packet's splice signalling.
    fn take_splice(
        &mut self,
        pid: u16,
        signs: SpliceSigns,
        audio_pids: &BTreeSet<u16>,
        s: Ghost<TsStream>,
        i: Ghost<int>,
    )
        requires
            0 <= i@ < s@.len(),
            s@.len() <= u64::MAX,
            s@.on(pid, i@),
            signs == s@.signs(i@),
            audio_pids@ == s@.programs().audio_pids,
            runs_track(old(self).runs@, s@, i@),
            old(self).v.splice_countdown_inconsistent == s@.count(Rule::WrongCountdown, i@),
            old(self).v.seamless_splice_run_broken == s@.count(Rule::BrokenSeamless, i@),
            old(self).v.nonzero_splice_type_on_audio == s@.count(Rule::AudioSpliceType, i@),
        ensures
            runs_track(final(self).runs@, s@, i@ + 1),
            *final(self) == (Checker {
                runs: final(self).runs,
                v: ViolationCounts {
                    splice_countdown_inconsistent: s@.count(Rule::WrongCountdown, i@ + 1) as u64,
                    seamless_splice_run_broken: s@.count(Rule::BrokenSeamless, i@ + 1) as u64,
                    nonzero_splice_type_on_audio: s@.count(Rule::AudioSpliceType, i@ + 1) as u64,
                    ..old(self).v
                },
                ..*old(self)
            }),
    {
        proof {
            reveal(runs_track);
        }
        proof {
            lemma_count_bound(s@, Rule::WrongCountdown, i@);
            lemma_count_bound(s@, Rule::BrokenSeamless, i@);
            lemma_count_bound(s@, Rule::AudioSpliceType, i@);
        }
        assert(self.runs@.contains_key(pid) || !self.runs@.contains_key(pid));
        let mut run: SpliceRun = match self.runs.remove(&pid) {
            Some(x) => x,
            None => SpliceRun::new(),
        };
        assert(run == s@.splice_run(pid, i@) && run.wf());
        let (wrong, broken): (bool, bool) = run.step(signs);
        if wrong {
            self.v.splice_countdown_inconsistent = self.v.splice_countdown_inconsistent + 1;
        }
        if broken {
            self.v.seamless_splice_run_broken = self.v.seamless_splice_run_broken + 1;
        }
        let odd_type: bool = match (signs.countdown, signs.pair) {
            (Some(_), Some((t, _))) => t != 0,
            _ => false,
        };
        if odd_type && audio_pids.contains(&pid) {
            self.v.nonzero_splice_type_on_audio = self.v.nonzero_splice_type_on_audio + 1;
        }
        self.runs.insert(pid, run);
        proof {
            assert forall|k: u16|
                ({
                    let r = if #[trigger] self.runs@.contains_key(k) {
                        self.runs@[k]
                    } else {
                        SpliceRun::idle()
                    };
                    r == s@.splice_run(k, i@ + 1) && r.wf()
                }) by {
                if k != pid {
                    assert(self.runs@.contains_key(k) == old(self).runs@.contains_key(k));
                    assert(!s@.on(k, i@));
                }
            }
        }
    }

    /// Take in an adaptation field: lengths and pairings.
    fn take_field(&mut self, af: &AdaptationField<'_>, afc: u8, s: Ghost<TsStream>, i: Ghost<int>)
        requires
            0 <= i@ < s@.len(),
            s@.len() <= u64::MAX,
            s@.counts(i@),
            s@.field(i@) == Some(af@),
            afc == s@.afc(i@),
            old(self).v.bad_af_length == s@.count(Rule::BadAfLength, i@),
            old(self).v.opcr_without_pcr == s@.count(Rule::OpcrWithoutPcr, i@),
            old(self).v.seamless_splice_without_splicing_point == s@.count(
                Rule::SeamlessWithoutPoint,
                i@,
            ),
        ensures
            *final(self) == (Checker {
                v: ViolationCounts {
                    bad_af_length: s@.count(Rule::BadAfLength, i@ + 1) as u64,
                    opcr_without_pcr: s@.count(Rule::OpcrWithoutPcr, i@ + 1) as u64,
                    seamless_splice_without_splicing_point: s@.count(
                        Rule::SeamlessWithoutPoint,
                        i@ + 1,
                    ) as u64,
                    ..old(self).v
                },
                ..*old(self)
            }),
    {
        proof {
            lemma_count_bound(s@, Rule::BadAfLength, i@);
            lemma_count_bound(s@, Rule::OpcrWithoutPcr, i@);
            lemma_count_bound(s@, Rule::SeamlessWithoutPoint, i@);
        }
        if (afc == 2 && af.length != 183) || (afc == 3 && af.length > 182) {
            self.v.bad_af_length = self.v.bad_af_length + 1;
        }
        if af.opcr_flag && !af.pcr_flag {
            self.v.opcr_without_pcr = self.v.opcr_without_pcr + 1;
        }
        let seamless: bool = match af.adaptation_field_extension {
            Some(x) => x.seamless_splice_flag,
            None => false,
        };
        if seamless && !af.splicing_point_flag {
            self.v.seamless_splice_without_splicing_point =
            self.v.seamless_splice_without_splicing_point + 1;
        }
    }

    /// Take in an adaptation field: the clock of a PCR PID.
    fn take_clock(
        &mut self,
        pid: u16,
        af: &AdaptationField<'_>,
        offset: u64,
        s: Ghost<TsStream>,
        i: Ghost<int>,
    )
        requires
            0 <= i@ < s@.len(),
            s@.len() < u64::MAX,
            s@.on(pid, i@),
            s@.field(i@) == Some(af@),
            offset == s@.offset(i@),
            af.pcr_base matches Some(b) ==> b < 0x2_0000_0000,
            clocks_track(old(self).pcr@, s@, i@),
            old(self).v.rai_without_pcr_on_pcr_pid == s@.count(Rule::RaiWithoutPcr, i@),
            old(self).v.pcr_interval_exceeded == s@.count(Rule::LatePcr, i@),
        ensures
            clocks_track(final(self).pcr@, s@, i@ + 1),
            *final(self) == (Checker {
                v: ViolationCounts {
                    rai_without_pcr_on_pcr_pid: s@.count(Rule::RaiWithoutPcr, i@ + 1) as u64,
                    pcr_interval_exceeded: s@.count(Rule::LatePcr, i@ + 1) as u64,
                    ..old(self).v
                },
                pcr: final(self).pcr,
                ..*old(self)
            }),
    {
        proof {
            reveal(clocks_track);
        }
        proof {
            lemma_count_bound(s@, Rule::RaiWithoutPcr, i@);
            lemma_count_bound(s@, Rule::LatePcr, i@);
        }
        let ghost pids = s@.programs().pcr_pids;
        let ghost start = *self;
        let mut named: bool = false;
        let mut late: bool = false;
        let mut k: usize = 0;
        while k < self.pcr.len()
            invariant
                0 <= i@ < s@.len() < u64::MAX,
                s@.on(pid, i@),
                s@.field(i@) == Some(af@),
                offset == s@.offset(i@),
                af.pcr_base matches Some(b) ==> b < 0x2_0000_0000,
                pids == s@.programs().pcr_pids,
                *self == (Checker { pcr: self.pcr, ..start }),
                self.pcr@.len() == pids.len(),
                k <= pids.len(),
                named == exists|j: int| 0 <= j < k && pids[j] == pid,
                late ==> named,
                named ==> late == s@.pcr_state(pid, i@).too_late(
                    af.discontinuity_indicator,
                    af.pcr_base,
                    af.pcr_extension,
                ),
                forall|j: int|
                    0 <= j < k ==> (#[trigger] self.pcr@[j]) == s@.pcr_state(pids[j], i@ + 1)
                        && self.pcr@[j].wf(i@ + 1) && self.pcr@[j].pid == pids[j],
                forall|j: int|
                    k <= j < pids.len() ==> (#[trigger] self.pcr@[j]) == s@.pcr_state(pids[j], i@)
                        && self.pcr@[j].wf(i@) && self.pcr@[j].pid == pids[j],
            decreases pids.len() - k,
        {
            let mut state: PcrState = self.pcr[k];
            if state.pid == pid {
                late =
                state.step(
                    af.discontinuity_indicator,
                    af.pcr_base,
                    af.pcr_extension,
                    offset,
                    i,
                );
                named = true;
                assert(pids[k as int] == pid);
                self.pcr.set(k, state);
            } else {
                assert(!s@.on(pids[k as int], i@));
            }
            k += 1;
        }
        proof {
            if named {
                let j = choose|j: int| 0 <= j < k && pids[j] == pid;
                assert(pids.contains(pid));
            }
            assert(named == pids.contains(pid));
        }
        if named && af.random_access_indicator && !af.pcr_flag {
            self.v.rai_without_pcr_on_pcr_pid = self.v.rai_without_pcr_on_pcr_pid + 1;
        }
        if late {
            self.v.pcr_interval_exceeded = self.v.pcr_interval_exceeded + 1;
        }
    }
}

impl Checker {
    /// A packet that does not count leaves the records of the PIDs alone.
    proof fn lemma_uncounted(self, s: TsStream, i: int)
        requires
            0 <= i,
            !s.counts(i),
            pids_track(self.pids@, s, i),
            counters_track(self.trackers@, s, i),
            runs_track(self.runs@, s, i),
            clocks_track(self.pcr@, s, i),
        ensures
            pids_track(self.pids@, s, i + 1),
            counters_track(self.trackers@, s, i + 1),
            runs_track(self.runs@, s, i + 1),
            clocks_track(self.pcr@, s, i + 1),
    {
        reveal(pids_track);
        reveal(counters_track);
        reveal(runs_track);
        reveal(clocks_track);
        assert forall|pid: u16| #[trigger]
            self.pids@.contains_key(pid) <==> s.pid_count(PidClass::Any, pid, i + 1) > 0 by {
            assert(!s.on(pid, i));
        }
        assert forall|pid: u16| self.pids@.contains_key(pid) implies #[trigger] self.pids@[pid]
            == PidReport::of(s, pid, i + 1) by {
            assert(!s.on(pid, i));
        }
        assert forall|pid: u16|
            (if #[trigger] self.trackers@.contains_key(pid) {
                self.trackers@[pid]@
            } else {
                Continuity::start()
            }) == s.continuity(pid, i + 1) by {
            assert(!s.on(pid, i));
        }
        assert forall|pid: u16|
            ({
                let run = if #[trigger] self.runs@.contains_key(pid) {
                    self.runs@[pid]
                } else {
                    SpliceRun::idle()
                };
                run == s.splice_run(pid, i + 1) && run.wf()
            }) by {
            assert(!s.on(pid, i));
        }
        assert forall|k: int| 0 <= k < self.pcr@.len() implies (#[trigger] self.pcr@[k])
            == s.pcr_state(s.programs().pcr_pids[k], i + 1) && self.pcr@[k].wf(i + 1)
            && self.pcr@[k].pid == s.programs().pcr_pids[k] by {
            assert(!s.on(s.programs().pcr_pids[k], i));
        }
    }

    /// A packet without adaptation field leaves the clocks alone.
    proof fn lemma_no_field(self, s: TsStream, i: int)
        requires
            0 <= i,
            s.field(i) is None,
            clocks_track(self.pcr@, s, i),
        ensures
            clocks_track(self.pcr@, s, i + 1),
    {
        reveal(clocks_track);
        assert forall|k: int| 0 <= k < self.pcr@.len() implies (#[trigger] self.pcr@[k])
            == s.pcr_state(s.programs().pcr_pids[k], i + 1) && self.pcr@[k].wf(i + 1)
            && self.pcr@[k].pid == s.programs().pcr_pids[k] by {}
    }

    /// Take in packet `i`.
    fn take_packet(
        &mut self,
        raw: &[u8],
        offset: u64,
        audio_pids: &BTreeSet<u16>,
        s: Ghost<TsStream>,
        i: Ghost<int>,
    )
        requires
            0 <= i@ < s@.len(),
            s@.len() < u64::MAX,
            raw@ == s@.raw(i@),
            raw@.len() == 188,
            offset == s@.offset(i@),
            audio_pids@ == s@.programs().audio_pids,
            old(self).tracks(s@, i@),
        ensures
            final(self).tracks(s@, i@ + 1),
    {
        proof {
            lemma_count_bound(s@, Rule::Unparseable, i@);
            lemma_count_bound(s@, Rule::Null, i@);
            lemma_count_bound(s@, Rule::ReservedAfc, i@);
        }
        let afc: u8 = (raw[3] >> 4) & 3;
        if raw[0] == TS_SYNC_BYTE && afc == 0 {
            self.v.reserved_afc = self.v.reserved_afc + 1;
        }
        let pkt: TsPacket<'_> = match TsPacket::parse(raw) {
            Ok(p) => p,
            Err(_) => {
                proof {
                    self.lemma_uncounted(s@, i@);
                }
                self.unparseable = self.unparseable + 1;
                return;
            },
        };
        if pkt.pid == NULL_PID {
            proof {
                self.lemma_uncounted(s@, i@);
            }
            self.null = self.null + 1;
            return;
        }
        proof {
            lemma_pcr_base_bound(raw@);
        }
        self.take_counted(&pkt, afc, offset, audio_pids, s, i);
    }

    /// Take in packet `i`, which parses and is no padding.
    fn take_counted(
        &mut self,
        pkt: &TsPacket<'_>,
        afc: u8,
        offset: u64,
        audio_pids: &BTreeSet<u16>,
        s: Ghost<TsStream>,
        i: Ghost<int>,
    )
        requires
            0 <= i@ < s@.len(),
            s@.len() < u64::MAX,
            s@.counts(i@),
            s@.packet(i@) == pkt@,
            afc == s@.afc(i@),
            offset == s@.offset(i@),
            audio_pids@ == s@.programs().audio_pids,
            pkt.adaptation_field matches Some(af) ==> (af.pcr_base matches Some(b) ==> b
                < 0x2_0000_0000),
            old(self).unparseable == s@.count(Rule::Unparseable, i@ + 1),
            old(self).null == s@.count(Rule::Null, i@ + 1),
            (ViolationCounts {
                reserved_afc: s@.count(Rule::ReservedAfc, i@) as u64,
                ..old(self).v
            }).tallies(s@, i@, 0),
            old(self).v.reserved_afc == s@.count(Rule::ReservedAfc, i@ + 1),
            pids_track(old(self).pids@, s@, i@),
            counters_track(old(self).trackers@, s@, i@),
            runs_track(old(self).runs@, s@, i@),
            clocks_track(old(self).pcr@, s@, i@),
        ensures
            final(self).tracks(s@, i@ + 1),
    {
        proof {
            assert forall|rule: Rule| #[trigger] s@.count(rule, i@ + 1) <= u64::MAX by {
                lemma_count_bound(s@, rule, i@ + 1);
            }
        }
        let has_payload: bool = afc & 1 != 0;
        let event: ContinuityEvent = self.take_counter(pkt, has_payload, s, i);
        self.take_record(pkt, event, s, i);
        let repeated: bool = match event {
            ContinuityEvent::Duplicate => true,
            _ => false,
        };
        let signs: SpliceSigns = read_signs(&pkt.adaptation_field, has_payload && !repeated);
        assert(signs == s@.signs(i@));
        self.take_splice(pkt.pid, signs, audio_pids, s, i);
        match &pkt.adaptation_field {
            Some(af) => {
                self.take_field(af, afc, s, i);
                self.take_clock(pkt.pid, af, offset, s, i);
            },
            None => {
                proof {
                    self.lemma_no_field(s@, i@);
                }
            },
        }
    }
}

pub(crate) proof fn lemma_pcr_base_bound(b: Seq<u8>)
    ensures
        parse_packet_spec(b) matches Ok(p) ==> (p.adaptation_field matches Some(af) ==> (
        af.pcr_base matches Some(x) ==> x < 0x2_0000_0000)),
{
    let raw = b.subrange(4, crate::packet::parse::payload_at(b));
    let (b0, b1, b2, b3, b4) = (raw[2], raw[3], raw[4], raw[5], raw[6]);
    assert((((b0 as u64) << 25) | ((b1 as u64) << 17) | ((b2 as u64) << 9) | ((b3 as u64) << 1) | (((
    b4 >> 7) & 1) as u64)) < 0x2_0000_0000u64) by (bit_vector);
    assert(clock_base_at(raw, 2) < 0x2_0000_0000u64);
}

/// First pass over packet `i`. Returns whether it starts a PAT.
fn scan(finder: &mut Finder, raw: &[u8], s: Ghost<TsStream>, i: Ghost<int>) -> (r: bool)
    requires
        0 <= i@ < s@.len(),
        raw@ == s@.raw(i@),
        188 * s@.len() <= u64::MAX,
        old(finder).tracks(s@.discovery(i@)),
        s@.discovery(i@).pat_sections + s@.discovery(i@).bad_sections <= 188 * i@,
    ensures
        final(finder).tracks(s@.discovery(i@ + 1)),
        s@.discovery(i@ + 1).pat_sections + s@.discovery(i@ + 1).bad_sections <= 188 * (i@ + 1),
        r == s@.starts_pat(i@),
{
    match TsPacket::parse(raw) {
        Ok(pkt) => {
            assert(s@.parsed(i@) == Some(pkt@));
            finder.take_packet(&pkt, Ghost(s@.discovery(i@)));
            pkt.pid == PAT_PID && pkt.payload.len() > 0 && pkt.payload_unit_start
        },
        Err(_) => {
            assert(s@.parsed(i@) is None);
            false
        },
    }
}

/// Validate a stream that starts on a packet boundary. Bytes after the last
/// whole packet are ignored.
pub fn validate_ts(bytes: &[u8]) -> (r: TsValidationReport)
    ensures
        match detected_layout(bytes@) {
            None => r.is_empty(),
            Some(layout) => r.describes(TsStream { layout, bytes: bytes@ }),
        },
{
    let layout: TsPacketLayout = match detect_packet_layout(bytes) {
        Some(l) => l,
        None => {
            return TsValidationReport::default();
        },
    };
    let size: usize = layout.packet_size();
    let n: usize = bytes.len() / size;
    let s: Ghost<TsStream> = Ghost(TsStream { layout, bytes: bytes@ });
    assert(188 * n <= bytes@.len() && bytes.len() == bytes@.len()) by (nonlinear_arith)
        requires
            size >= 188,
            n == bytes@.len() / size as nat,
            bytes.len() == bytes@.len(),
    ;
    let mut finder: Finder = Finder::new();
    let mut last_pat: Option<u64> = None;
    let mut pat_gap: Option<u64> = None;
    let mut i: usize = 0;
    while i < n
        invariant
            s@ == (TsStream { layout, bytes: bytes@ }),
            n == s@.len(),
            i <= n,
            188 * n <= usize::MAX,
            finder.tracks(s@.discovery(i as int)),
            s@.discovery(i as int).pat_sections + s@.discovery(i as int).bad_sections <= 188 * i,
            last_pat == s@.last_pat(i as int),
            last_pat matches Some(l) ==> l < i,
            pat_gap == s@.pat_gap(i as int),
        decreases n - i,
    {
        let raw: &[u8] = layout.nth(bytes, i);
        if scan(&mut finder, raw, s, Ghost(i as int)) {
            if let Some(l) = last_pat {
                let gap: u64 = i as u64 - l;
                pat_gap =
                match pat_gap {
                    Some(g) => Some(if g >= gap { g } else { gap }),
                    None => Some(gap),
                };
            }
            last_pat = Some(i as u64);
        }
        i += 1;
    }
    let mut checker: Checker = Checker::new(&finder.pcr_pids, s);
    let mut i: usize = 0;
    while i < n
        invariant
            s@ == (TsStream { layout, bytes: bytes@ }),
            n == s@.len(),
            size == layout.size(),
            i <= n,
            188 * n <= usize::MAX,
            bytes.len() == bytes@.len(),
            finder.tracks(s@.programs()),
            checker.tracks(s@, i as int),
        decreases n - i,
    {
        proof {
            lemma_frame_in_bounds(bytes@.len(), layout.size(), i as nat);
        }
        let raw: &[u8] = layout.nth(bytes, i);
        let offset: u64 = (i * size) as u64;
        checker.take_packet(raw, offset, &finder.audio_pids, s, Ghost(i as int));
        i += 1;
    }
    let mut pcr: Vec<PcrReport> = Vec::new();
    let mut k: usize = 0;
    while k < checker.pcr.len()
        invariant
            k <= checker.pcr@.len(),
            pcr@.len() == k,
            clocks_track(checker.pcr@, s@, n as int),
            forall|j: int| 0 <= j < k ==> (#[trigger] pcr@[j]) == checker.pcr@[j].reported(),
        decreases checker.pcr@.len() - k,
    {
        assert(checker.pcr@[k as int].wf(n as int)) by {
            reveal(clocks_track);
        }
        pcr.push(checker.pcr[k].report());
        k += 1;
    }
    proof {
        reveal(clocks_track);
        reveal(pids_track);
    }
    let mut violations: ViolationCounts = checker.v;
    violations.bad_psi_sections = finder.bad_sections;
    TsValidationReport {
        layout: Some(layout),
        packets: n as u64,
        unparseable_packets: checker.unparseable,
        null_packets: checker.null,
        programs: finder.programs,
        pcr,
        pids: checker.pids,
        violations,
        pat_sections: finder.pat_sections,
        pat_max_gap_packets: pat_gap,
    }
}

/// Every packet of a report is padding, does not parse, or is recorded on its
/// PID.
pub proof fn lemma_packets_accounted(s: TsStream, n: int)
    requires
        0 <= n <= s.len(),
    ensures
        s.count(Rule::Unparseable, n) + s.count(Rule::Null, n) + counted(s, n) == n,
        forall|pid: u16| #[trigger] s.pid_count(PidClass::Any, pid, n) <= counted(s, n),
    decreases n,
{
    if n > 0 {
        lemma_packets_accounted(s, n - 1);
        assert forall|pid: u16| #[trigger] s.pid_count(PidClass::Any, pid, n) <= counted(s, n) by {
            assert(s.pid_count(PidClass::Any, pid, n - 1) <= counted(s, n - 1));
        }
    }
}

/// How many of the first `n` packets are recorded on a PID.
pub open spec fn counted(s: TsStream, n: int) -> nat
    decreases n,
{
    if n <= 0 {
        0
    } else {
        counted(s, n - 1) + (if s.counts(n - 1) { 1nat } else { 0 })
    }
}

/// What an adaptation field says of splicing.
fn read_signs(field: &Option<AdaptationField<'_>>, counts: bool) -> (r: SpliceSigns)
    ensures
        r.counts == counts,
        r.countdown == (match *field {
            Some(af) => af.splice_countdown,
            None => None,
        }),
        r.pair == (match *field {
            Some(af) => crate::validate::stream::splice_pair(af.adaptation_field_extension),
            None => None,
        }),
{
    match field {
        Some(af) => SpliceSigns {
            counts,
            countdown: af.splice_countdown,
            pair: match af.adaptation_field_extension {
                Some(x) => match (x.splice_type, x.dts_next_au) {
                    (Some(t), Some(d)) => Some((t, d)),
                    _ => None,
                },
                None => None,
            },
        },
        None => SpliceSigns { counts, countdown: None, pair: None },
    }
}

} // verus!
