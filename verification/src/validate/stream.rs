//! What the rules say of each packet of a stream: the model that a report is
//! held to.
use vstd::prelude::*;

use crate::clock::{Continuity, ContinuityEvent};
use crate::packet::layout::TsPacketLayout;
use crate::packet::parse::{
    parse_packet_spec, AdaptationFieldExtension, AdaptationFieldView, TsPacketView,
};
use crate::psi::tables::PAT_PID;
use crate::validate::discovery::{Discovery, NULL_PID};
use crate::validate::pcr::PcrState;
use crate::validate::splice::{SpliceRun, SpliceSigns};

verus! {

/// The rules, and the classes of packets that a report counts.
pub enum Rule {
    /// The packet does not parse.
    Unparseable,
    /// A null packet.
    Null,
    /// `adaptation_field_control` is the reserved '00'.
    ReservedAfc,
    /// `adaptation_field_length` is not 183 without payload, or over 182 with.
    BadAfLength,
    /// An OPCR without a PCR.
    OpcrWithoutPcr,
    /// `seamless_splice_flag` without `splicing_point_flag`.
    SeamlessWithoutPoint,
    /// `random_access_indicator` on a PCR PID without a PCR.
    RaiWithoutPcr,
    /// Dropped packets before this one, or a second duplicate.
    Continuity,
    /// `transport_error_indicator`.
    TransportError,
    /// A PCR more than 0,1 s after the one before it, not signalled.
    LatePcr,
    /// A `splice_countdown` that contradicts the packets before it.
    WrongCountdown,
    /// A seamless splice run that is broken off.
    BrokenSeamless,
    /// A `splice_type` other than 0 on an audio PID.
    AudioSpliceType,
}

/// The classes of packets that a report counts for each PID.
pub enum PidClass {
    /// Every packet.
    Any,
    /// `transport_scrambling_control` is not zero.
    Scrambled,
    /// Dropped packets before this one, or a second duplicate.
    Continuity,
    /// The permitted duplicate.
    Duplicate,
}

/// A framed stream.
pub struct TsStream {
    /// Its framing.
    pub layout: TsPacketLayout,
    /// Its bytes.
    pub bytes: Seq<u8>,
}

impl TsStream {
    /// Number of whole packets.
    pub open spec fn len(self) -> nat {
        self.layout.count(self.bytes)
    }

    /// The bytes of packet `i`.
    pub open spec fn raw(self, i: int) -> Seq<u8> {
        self.layout.packet(self.bytes, i)
    }

    /// Packet `i`, if it parses.
    pub open spec fn parsed(self, i: int) -> Option<TsPacketView> {
        match parse_packet_spec(self.raw(i)) {
            Ok(p) => Some(p),
            Err(_) => None,
        }
    }

    /// Packet `i`, which parses.
    pub open spec fn packet(self, i: int) -> TsPacketView {
        self.parsed(i)->0
    }

    /// Packet `i` parses and is no padding.
    pub open spec fn counts(self, i: int) -> bool {
        self.parsed(i) is Some && self.packet(i).pid != NULL_PID
    }

    /// Packet `i` counts and is on PID `pid`.
    pub open spec fn on(self, pid: u16, i: int) -> bool {
        self.counts(i) && self.packet(i).pid == pid
    }

    /// `adaptation_field_control` of packet `i`.
    pub open spec fn afc(self, i: int) -> u8 {
        (self.raw(i)[3] >> 4) & 3
    }

    /// Packet `i` announces a payload.
    pub open spec fn has_payload(self, i: int) -> bool {
        self.afc(i) & 1 != 0
    }

    /// The adaptation field of packet `i`.
    pub open spec fn field(self, i: int) -> Option<AdaptationFieldView> {
        self.packet(i).adaptation_field
    }

    /// Packet `i` signals a discontinuity.
    pub open spec fn discontinuity(self, i: int) -> bool {
        self.field(i) matches Some(af) && af.discontinuity_indicator
    }

    /// What the continuity counters on `pid` say before packet `i`.
    pub open spec fn continuity(self, pid: u16, i: int) -> Continuity
        decreases i,
    {
        if i <= 0 {
            Continuity::start()
        } else if self.on(pid, i - 1) {
            self.continuity(pid, i - 1).observed(
                self.packet(i - 1).continuity_counter,
                self.has_payload(i - 1),
                self.discontinuity(i - 1),
            )
        } else {
            self.continuity(pid, i - 1)
        }
    }

    /// What packet `i` is by its continuity counter.
    pub open spec fn event(self, i: int) -> ContinuityEvent {
        let p = self.packet(i);
        self.continuity(p.pid, i).event(
            p.continuity_counter,
            self.has_payload(i),
            self.discontinuity(i),
        )
    }

    /// What packet `i` says of splicing.
    pub open spec fn signs(self, i: int) -> SpliceSigns {
        SpliceSigns {
            counts: self.has_payload(i) && self.event(i) != ContinuityEvent::Duplicate,
            countdown: match self.field(i) {
                Some(af) => af.splice_countdown,
                None => None,
            },
            pair: match self.field(i) {
                Some(af) => splice_pair(af.adaptation_field_extension),
                None => None,
            },
        }
    }

    /// The splice run on `pid` before packet `i`.
    pub open spec fn splice_run(self, pid: u16, i: int) -> SpliceRun
        decreases i,
    {
        if i <= 0 {
            SpliceRun::idle()
        } else if self.on(pid, i - 1) {
            self.splice_run(pid, i - 1).after(self.signs(i - 1))
        } else {
            self.splice_run(pid, i - 1)
        }
    }

    /// What the first `i` packets tell of the programs.
    pub open spec fn discovery(self, i: int) -> Discovery
        decreases i,
    {
        if i <= 0 {
            Discovery::start()
        } else {
            match self.parsed(i - 1) {
                Some(p) => self.discovery(i - 1).with_packet(p),
                None => self.discovery(i - 1),
            }
        }
    }

    /// What the whole stream tells of the programs.
    pub open spec fn programs(self) -> Discovery {
        self.discovery(self.len() as int)
    }

    /// Byte offset of packet `i`.
    pub open spec fn offset(self, i: int) -> u64 {
        (i * self.layout.size()) as u64
    }

    /// What PCR PID `pid` has told before packet `i`.
    pub open spec fn pcr_state(self, pid: u16, i: int) -> PcrState
        decreases i,
    {
        if i <= 0 {
            PcrState::start(pid)
        } else if self.on(pid, i - 1) && self.field(i - 1) is Some {
            let af = self.field(i - 1)->0;
            self.pcr_state(pid, i - 1).after(
                af.discontinuity_indicator,
                af.pcr_base,
                af.pcr_extension,
                self.offset(i - 1),
            )
        } else {
            self.pcr_state(pid, i - 1)
        }
    }

    /// Packet `i` breaks rule `rule`, or is of that class.
    pub open spec fn breaks(self, rule: Rule, i: int) -> bool {
        let p = self.packet(i);
        let run = self.splice_run(p.pid, i);
        let is_pcr_pid = self.programs().pcr_pids.contains(p.pid);
        match rule {
            Rule::Unparseable => self.parsed(i) is None,
            Rule::Null => self.parsed(i) is Some && p.pid == NULL_PID,
            Rule::ReservedAfc => self.raw(i)[0] == 0x47 && self.afc(i) == 0,
            Rule::TransportError => self.counts(i) && p.transport_error,
            Rule::Continuity => self.counts(i) && self.event(i) is Dropped,
            Rule::WrongCountdown => self.counts(i) && run.countdown_wrong(self.signs(i)),
            Rule::BrokenSeamless => self.counts(i) && run.seamless_broken(self.signs(i)),
            Rule::AudioSpliceType => {
                &&& self.counts(i)
                &&& self.signs(i).countdown is Some
                &&& self.signs(i).pair matches Some((t, _)) && t != 0
                &&& self.programs().audio_pids.contains(p.pid)
            },
            Rule::BadAfLength => self.counts(i) && (self.field(i) matches Some(af) && bad_af_length(
                self.afc(i),
                af.length,
            )),
            Rule::OpcrWithoutPcr => self.counts(i) && (self.field(i) matches Some(af)
                && af.opcr_flag && !af.pcr_flag),
            Rule::SeamlessWithoutPoint => self.counts(i) && (self.field(i) matches Some(af)
                && !af.splicing_point_flag && (af.adaptation_field_extension matches Some(x)
                && x.seamless_splice_flag)),
            Rule::RaiWithoutPcr => self.counts(i) && is_pcr_pid && (self.field(i) matches Some(af)
                && af.random_access_indicator && !af.pcr_flag),
            Rule::LatePcr => self.counts(i) && is_pcr_pid && (self.field(i) matches Some(af)
                && self.pcr_state(p.pid, i).too_late(
                af.discontinuity_indicator,
                af.pcr_base,
                af.pcr_extension,
            )),
        }
    }

    /// How many of the first `n` packets break `rule`.
    pub open spec fn count(self, rule: Rule, n: int) -> nat
        decreases n,
    {
        if n <= 0 {
            0
        } else {
            self.count(rule, n - 1) + (if self.breaks(rule, n - 1) { 1nat } else { 0 })
        }
    }

    /// Packet `i` is of class `class` on PID `pid`.
    pub open spec fn is_of(self, class: PidClass, pid: u16, i: int) -> bool {
        self.on(pid, i) && match class {
            PidClass::Any => true,
            PidClass::Scrambled => self.packet(i).transport_scrambling_control != 0,
            PidClass::Continuity => self.event(i) is Dropped,
            PidClass::Duplicate => self.event(i) == ContinuityEvent::Duplicate,
        }
    }

    /// How many of the first `n` packets are of class `class` on PID `pid`.
    pub open spec fn pid_count(self, class: PidClass, pid: u16, n: int) -> nat
        decreases n,
    {
        if n <= 0 {
            0
        } else {
            self.pid_count(class, pid, n - 1) + (if self.is_of(class, pid, n - 1) {
                1nat
            } else {
                0
            })
        }
    }

    /// Packet `i` starts a unit on the PAT's PID.
    pub open spec fn starts_pat(self, i: int) -> bool {
        self.parsed(i) matches Some(p) && p.pid == PAT_PID && p.payload.len() > 0
            && p.payload_unit_start
    }

    /// The last packet before `n` that starts a PAT.
    pub open spec fn last_pat(self, n: int) -> Option<u64>
        decreases n,
    {
        if n <= 0 {
            None
        } else if self.starts_pat(n - 1) {
            Some((n - 1) as u64)
        } else {
            self.last_pat(n - 1)
        }
    }

    /// The largest distance between consecutive PAT starts before packet `n`.
    pub open spec fn pat_gap(self, n: int) -> Option<u64>
        decreases n,
    {
        if n <= 0 {
            None
        } else if self.starts_pat(n - 1) && self.last_pat(n - 1) is Some {
            let gap = (n - 1 - self.last_pat(n - 1)->0) as u64;
            match self.pat_gap(n - 1) {
                Some(g) if g >= gap => Some(g),
                _ => Some(gap),
            }
        } else {
            self.pat_gap(n - 1)
        }
    }
}

/// `splice_type` and `DTS_next_AU` of an extension that carries both.
pub open spec fn splice_pair(x: Option<AdaptationFieldExtension>) -> Option<(u8, u64)> {
    match x {
        Some(e) => match (e.splice_type, e.dts_next_au) {
            (Some(t), Some(d)) => Some((t, d)),
            _ => None,
        },
        None => None,
    }
}

/// `adaptation_field_length` is out of the bound that goes with the control.
pub open spec fn bad_af_length(afc: u8, length: u8) -> bool {
    (afc == 2 && length != 183) || (afc == 3 && length > 182)
}

/// No class has more packets than there are.
pub proof fn lemma_count_bound(s: TsStream, rule: Rule, n: int)
    ensures
        n >= 0 ==> s.count(rule, n) <= n,
    decreases n,
{
    if n > 0 {
        lemma_count_bound(s, rule, n - 1);
    }
}

/// No class has more packets on a PID than there are on that PID.
pub proof fn lemma_pid_count_bound(s: TsStream, class: PidClass, pid: u16, n: int)
    ensures
        n >= 0 ==> s.pid_count(PidClass::Any, pid, n) <= n,
        s.pid_count(class, pid, n) <= s.pid_count(PidClass::Any, pid, n),
    decreases n,
{
    if n > 0 {
        lemma_pid_count_bound(s, class, pid, n - 1);
    }
}

} // verus!
