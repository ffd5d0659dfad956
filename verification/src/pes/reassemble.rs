//! Joining transport payloads of one PID into PES packets.
//!
//! A PES packet begins in a transport packet whose `payload_unit_start` is set;
//! packets without it continue the packet; the next start closes it.
use vstd::prelude::*;

use crate::error::TsError;
use crate::packet::parse::{TsPacket, TsPacketView};
use crate::pes::parse::{parse_pes_spec, PesPacket, PesPacketView};

verus! {

/// Reassembler for one PID.
#[derive(Debug)]
pub struct PesReassembler {
    buf: Vec<u8>,
    started: bool,
    current_rai: bool,
    pending_rai: bool,
}

/// Abstract state of a [`PesReassembler`].
#[verifier::ext_equal]
pub struct Reassembly {
    /// Bytes of the packet in flight.
    pub buf: Seq<u8>,
    /// A packet is in flight.
    pub started: bool,
    /// A random-access indicator announced the packet in flight.
    pub current_rai: bool,
    /// A random-access indicator was seen since the last start.
    pub pending_rai: bool,
}

impl View for PesReassembler {
    type V = Reassembly;

    closed spec fn view(&self) -> Reassembly {
        Reassembly {
            buf: self.buf@,
            started: self.started,
            current_rai: self.current_rai,
            pending_rai: self.pending_rai,
        }
    }
}

/// Whether packet `p` carries the random-access indicator.
pub open spec fn carries_rai(p: TsPacketView) -> bool {
    p.adaptation_field is Some && p.adaptation_field->0.random_access_indicator
}

/// PES packet `p` with its random-access mark set to `rai`.
pub open spec fn marked(p: PesPacketView, rai: bool) -> PesPacketView {
    PesPacketView { random_access: rai, ..p }
}

impl Reassembly {
    /// Nothing seen yet.
    pub open spec fn empty() -> Self {
        Reassembly { buf: Seq::empty(), started: false, current_rai: false, pending_rai: false }
    }

    /// What the packet in flight decodes to.
    pub open spec fn in_flight(self) -> Result<PesPacketView, TsError> {
        match parse_pes_spec(self.buf) {
            Ok(p) => Ok(marked(p, self.current_rai)),
            Err(e) => Err(e),
        }
    }

    /// The state with packet `p` just started.
    pub open spec fn start(self, p: TsPacketView) -> Self {
        Reassembly {
            buf: p.payload,
            started: true,
            current_rai: self.pending_rai || carries_rai(p),
            pending_rai: false,
        }
    }

    /// The state after a packet `p` that starts nothing.
    pub open spec fn extend(self, p: TsPacketView) -> Self {
        Reassembly {
            buf: if self.started { self.buf + p.payload } else { self.buf },
            pending_rai: self.pending_rai || carries_rai(p),
            ..self
        }
    }

    /// The state after the packets `ps`, none of which starts anything.
    pub open spec fn extend_all(self, ps: Seq<TsPacketView>) -> Self
        decreases ps.len(),
    {
        if ps.len() == 0 {
            self
        } else {
            self.extend_all(ps.drop_last()).extend(ps.last())
        }
    }
}

impl Default for PesReassembler {
    fn default() -> (r: Self)
        ensures
            r@ == Reassembly::empty(),
    {
        PesReassembler { buf: Vec::new(), started: false, current_rai: false, pending_rai: false }
    }
}

impl PesReassembler {
    /// An empty reassembler.
    pub fn new() -> (r: Self)
        ensures
            r@ == Reassembly::empty(),
    {
        Self::default()
    }

    /// Feed the next packet of the PID. A packet that starts a unit closes the
    /// one in flight and hands it out, marked with the random-access indicator
    /// seen on its starting packet or on one after the start before it. When the
    /// packet in flight does not parse, its error is returned and nothing
    /// changes. Bytes before the first start are dropped.
    pub fn feed(&mut self, ts: &TsPacket<'_>) -> (r: Result<Option<PesPacket>, TsError>)
        ensures
            !ts@.payload_unit_start ==> (r matches Ok(None)) && final(self)@ == old(self)@.extend(ts@),
            ts@.payload_unit_start && !old(self)@.started ==> (r matches Ok(None)) && final(self)@
                == old(self)@.start(ts@),
            ts@.payload_unit_start && old(self)@.started ==> match old(self)@.in_flight() {
                Ok(p) => r matches Ok(Some(q)) && q@ == p && final(self)@ == old(self)@.start(ts@),
                Err(e) => r matches Err(f) && f == e && final(self)@ == old(self)@,
            },
    {
        let rai: bool = match &ts.adaptation_field {
            Some(af) => af.random_access_indicator,
            None => false,
        };
        if ts.payload_unit_start {
            let mut finished: Option<PesPacket> = None;
            if self.started {
                let mut pes: PesPacket = PesPacket::parse(self.buf.as_slice())?;
                pes.random_access = self.current_rai;
                finished = Some(pes);
            }
            self.buf.clear();
            self.buf.extend_from_slice(ts.payload);
            assert(self.buf@ =~= ts.payload@);
            self.started = true;
            self.current_rai = self.pending_rai || rai;
            self.pending_rai = false;
            Ok(finished)
        } else {
            if rai {
                self.pending_rai = true;
            }
            if self.started {
                self.buf.extend_from_slice(ts.payload);
                assert(self.buf@ =~= old(self).buf@ + ts.payload@);
            }
            Ok(None)
        }
    }

    /// Hand out the packet in flight, at the end of the stream. The buffer is
    /// emptied whether or not it parses; the mark of an unparseable packet
    /// stays behind.
    pub fn flush(&mut self) -> (r: Result<Option<PesPacket>, TsError>)
        ensures
            !old(self)@.started ==> (r matches Ok(None)) && final(self)@ == old(self)@,
            old(self)@.started ==> match old(self)@.in_flight() {
                Ok(p) => r matches Ok(Some(q)) && q@ == p && final(self)@ == (Reassembly {
                    buf: Seq::empty(),
                    started: false,
                    current_rai: false,
                    pending_rai: old(self)@.pending_rai,
                }),
                Err(e) => r matches Err(f) && f == e && final(self)@ == (Reassembly {
                    buf: Seq::empty(),
                    started: false,
                    current_rai: old(self)@.current_rai,
                    pending_rai: old(self)@.pending_rai,
                }),
            },
    {
        if !self.started {
            return Ok(None);
        }
        self.started = false;
        let parsed: Result<PesPacket, TsError> = PesPacket::parse(self.buf.as_slice());
        self.buf.clear();
        let mut pes: PesPacket = parsed?;
        pes.random_access = self.current_rai;
        self.current_rai = false;
        Ok(Some(pes))
    }
}

/// The payloads of `ps`, one after the other.
pub open spec fn joined_payloads(ps: Seq<TsPacketView>) -> Seq<u8>
    decreases ps.len(),
{
    if ps.len() == 0 {
        Seq::empty()
    } else {
        joined_payloads(ps.drop_last()) + ps.last().payload
    }
}

/// A packet that starts in `first` and continues through `rest` is assembled as
/// their payloads in order; it is marked when `first`, or a packet since the
/// start before it, carries the indicator; an indicator in `rest` marks the
/// packet to start next.
pub proof fn lemma_reassembly_joins(s: Reassembly, first: TsPacketView, rest: Seq<TsPacketView>)
    ensures
        ({
            let t = s.start(first).extend_all(rest);
            &&& t.started
            &&& t.buf == first.payload + joined_payloads(rest)
            &&& t.current_rai == (s.pending_rai || carries_rai(first))
            &&& t.pending_rai == exists|i: int| 0 <= i < rest.len() && carries_rai(#[trigger] rest[i])
        }),
    decreases rest.len(),
{
    let t = s.start(first).extend_all(rest);
    if rest.len() == 0 {
        assert(t.buf =~= first.payload + joined_payloads(rest));
    } else {
        let init = rest.drop_last();
        lemma_reassembly_joins(s, first, init);
        assert(t.buf =~= first.payload + joined_payloads(rest));
        let u = s.start(first).extend_all(init);
        if u.pending_rai {
            let i = choose|i: int| 0 <= i < init.len() && carries_rai(#[trigger] init[i]);
            assert(carries_rai(rest[i]));
        }
        if carries_rai(rest.last()) {
            assert(carries_rai(rest[rest.len() - 1]));
        }
        if exists|i: int| 0 <= i < rest.len() && carries_rai(#[trigger] rest[i]) {
            let i = choose|i: int| 0 <= i < rest.len() && carries_rai(#[trigger] rest[i]);
            if i < rest.len() - 1 {
                assert(carries_rai(init[i]));
            }
        }
    }
}

/// What feeding packets came to.
#[verifier::ext_equal]
pub struct Reading {
    /// The state afterwards.
    pub state: Reassembly,
    /// The PES packets handed out.
    pub units: Seq<PesPacketView>,
}

impl Reassembly {
    /// The state after packet `p`.
    pub open spec fn next(self, p: TsPacketView) -> Self {
        if !p.payload_unit_start {
            self.extend(p)
        } else if self.started && self.in_flight() is Err {
            self
        } else {
            self.start(p)
        }
    }

    /// The PES packet that packet `p` hands out.
    pub open spec fn handed_out(self, p: TsPacketView) -> Seq<PesPacketView> {
        if p.payload_unit_start && self.started && self.in_flight() is Ok {
            seq![self.in_flight()->Ok_0]
        } else {
            Seq::empty()
        }
    }

    /// What feeding the packets `ps` comes to.
    pub open spec fn read(self, ps: Seq<TsPacketView>) -> Reading
        decreases ps.len(),
    {
        if ps.len() == 0 {
            Reading { state: self, units: Seq::empty() }
        } else {
            let r = self.read(ps.drop_last());
            Reading {
                state: r.state.next(ps.last()),
                units: r.units + r.state.handed_out(ps.last()),
            }
        }
    }

    /// The PES packet in flight, if there is one that parses.
    pub open spec fn closing(self) -> Seq<PesPacketView> {
        if self.started && self.in_flight() is Ok {
            seq![self.in_flight()->Ok_0]
        } else {
            Seq::empty()
        }
    }
}

/// Feeding goes on where it stopped.
pub proof fn lemma_read_goes_on(s: Reassembly, a: Seq<TsPacketView>, b: Seq<TsPacketView>)
    ensures
        s.read(a + b).state == s.read(a).state.read(b).state,
        s.read(a + b).units == s.read(a).units + s.read(a).state.read(b).units,
    decreases b.len(),
{
    if b.len() == 0 {
        assert(a + b =~= a);
        assert(s.read(a).units + Seq::<PesPacketView>::empty() =~= s.read(a).units);
    } else {
        lemma_read_goes_on(s, a, b.drop_last());
        assert((a + b).drop_last() =~= a + b.drop_last());
        assert((a + b).last() == b.last());
        assert(s.read(a + b).units =~= s.read(a).units + s.read(a).state.read(b).units);
    }
}

/// A packet that carries nothing for a reassembly.
pub open spec fn is_quiet(p: TsPacketView) -> bool {
    !p.payload_unit_start && p.payload.len() == 0 && !carries_rai(p)
}

/// Packets that carry nothing change nothing.
pub proof fn lemma_quiet_ignored(s: Reassembly, ps: Seq<TsPacketView>)
    requires
        forall|i: int| 0 <= i < ps.len() ==> is_quiet(#[trigger] ps[i]),
    ensures
        s.read(ps).state == s,
        s.read(ps).units.len() == 0,
    decreases ps.len(),
{
    if ps.len() > 0 {
        lemma_quiet_ignored(s, ps.drop_last());
        let last = ps[ps.len() - 1];
        assert(is_quiet(last));
        assert(s.buf + last.payload =~= s.buf);
        assert(s.next(last) =~= s);
    }
}

} // verus!
