//! Delivering frames: right away, or when the constant-rate clock says so.
use vstd::prelude::*;

use crate::error::TsError;
use crate::muxer::config::{MuxError, MuxPacket, SpliceSpec};
use crate::muxer::emit::{guard, guarded};
use crate::muxer::flow::{
    packets_of, Flow, FlowView, PacerView, PacketView, Plan, PlanView, TrackFlow, TrackPlan,
    TICKS_PER_BYTE_RATE,
};
use crate::muxer::frame::Riders;
use crate::muxer::packets::null_packet;
use crate::muxer::pes::{build_pes, frame_error, frame_packets, ring, to_ring};

verus! {

/// How far ahead of its decoding time a video frame arrives: 0,25 s.
pub const CBR_TARGET_LEAD_27MHZ: i128 = 6_750_000;

/// How far ahead of its decoding time any other frame arrives: 40 ms.
pub const CBR_AUDIO_LEAD_27MHZ: i128 = 1_080_000;

/// What came of an attempt.
#[verifier::ext_equal]
pub struct Outcome {
    /// The state, whatever came of it.
    pub flow: FlowView,
    /// Why it ended early.
    pub error: Option<MuxError>,
}

/// A success.
pub open spec fn done(flow: FlowView) -> Outcome {
    Outcome { flow, error: None }
}

/// The result says what the outcome does.
pub open spec fn agrees(r: Result<(), MuxError>, o: Outcome) -> bool {
    match r {
        Ok(_) => o.error is None,
        Err(e) => o.error == Some(e),
    }
}

/// 27 MHz ticks of a 90 kHz time, kept within 64 bits.
pub open spec fn ticks_27(t: i64) -> int {
    if t * 300 > i64::MAX {
        i64::MAX as int
    } else if t * 300 < i64::MIN {
        i64::MIN as int
    } else {
        t * 300
    }
}

fn to_27(t: i64) -> (r: i128)
    ensures
        r == ticks_27(t),
        i64::MIN <= r <= i64::MAX,
{
    let x: i128 = t as i128 * 300;
    if x > i64::MAX as i128 {
        i64::MAX as i128
    } else if x < i64::MIN as i128 {
        i64::MIN as i128
    } else {
        x
    }
}

/// The time by which a frame has to be there: its DTS, or else its PTS.
pub open spec fn decode_time(p: PacketView) -> Option<i64> {
    match p.dts {
        Some(d) => Some(d),
        None => p.pts,
    }
}

/// When a held frame is due.
pub open spec fn held_due(p: PacketView) -> int {
    match decode_time(p) {
        Some(t) => ticks_27(t) - CBR_AUDIO_LEAD_27MHZ,
        None => 0 - CBR_AUDIO_LEAD_27MHZ,
    }
}

fn due_of(p: &MuxPacket) -> (r: i128)
    ensures
        r == held_due(p@),
{
    let t: i64 = match p.dts {
        Some(d) => d,
        None => match p.pts {
            Some(x) => x,
            None => 0,
        },
    };
    to_27(t) - CBR_AUDIO_LEAD_27MHZ
}

/// The stream, among the first `n`, whose first held frame is due first; the
/// earlier stream where two are due at once.
pub open spec fn first_due(held: Seq<Seq<PacketView>>, n: int) -> Option<int>
    decreases n,
{
    if n <= 0 {
        None
    } else {
        let prior = first_due(held, n - 1);
        if held[n - 1].len() == 0 {
            prior
        } else if prior is Some && held_due(held[prior->0][0]) <= held_due(held[n - 1][0]) {
            prior
        } else {
            Some(n - 1)
        }
    }
}

/// Number of held frames.
pub open spec fn held_count(held: Seq<Seq<PacketView>>) -> nat
    decreases held.len(),
{
    if held.len() == 0 {
        0
    } else {
        held_count(held.drop_last()) + held.last().len()
    }
}

/// What goes along with PES packet `k` of the frame, the last one being `last`.
pub open spec fn riders_for(r: Riders, k: int, last: int) -> Riders {
    Riders {
        pcr: if k == 0 { r.pcr } else { None },
        random_access: k == 0 && r.random_access,
        splice: if k == last { r.splice } else { None },
    }
}

/// How far ahead of its decoding time a frame arrives.
pub open spec fn lead_of(is_video: bool) -> int {
    if is_video { CBR_TARGET_LEAD_27MHZ as int } else { CBR_AUDIO_LEAD_27MHZ as int }
}

impl FlowView {
    /// After the first `n` PES packets of a frame.
    pub open spec fn frame_put(
        self,
        plan: PlanView,
        t: int,
        riders: Riders,
        packets: Seq<Seq<u8>>,
        n: int,
    ) -> FlowView
        decreases n,
    {
        if n <= 0 {
            self
        } else {
            self.frame_put(plan, t, riders, packets, n - 1).pes_put(
                plan,
                t,
                riders_for(riders, n - 1, packets.len() - 1),
                packets[n - 1],
            )
        }
    }

    /// With no splicing point asked for on stream `t`.
    pub open spec fn splice_taken(self, t: int) -> FlowView {
        FlowView {
            tracks: self.tracks.update(t, TrackFlow { splice: None, ..self.tracks[t] }),
            ..self
        }
    }

    /// After the PCRs that are owed before a frame off the byte clock.
    pub open spec fn pcrs_before(
        self,
        plan: PlanView,
        t: int,
        pts: Option<i64>,
        paced: bool,
    ) -> FlowView {
        let track = plan.tracks[t];
        let p = track.program as int;
        let own = track.pid == plan.programs[p].pcr_pid;
        match pts {
            None => self,
            Some(x) => if own {
                if self.pacer is None {
                    self.chain_put(plan, p, guarded(x) as int)
                } else {
                    self
                }
            } else if paced {
                self
            } else {
                self.periodic_put(plan, p, x)
            },
        }
    }

    /// After a frame on stream `t`. `paced` tells that the byte clock takes care
    /// of the PCRs.
    #[verifier::opaque]
    pub open spec fn sent(self, plan: PlanView, t: int, pkt: PacketView, paced: bool) -> Outcome {
        let track = plan.tracks[t];
        let p = track.program as int;
        let own = track.pid == plan.programs[p].pcr_pid;
        let b = self.pcrs_before(plan, t, pkt.pts, paced);
        match frame_error(track.stream_id, pkt.pts, pkt.dts, pkt.data.len() as int) {
            Some(what) => Outcome {
                flow: b,
                error: Some(MuxError::Format(TsError::InvalidField { what })),
            },
            None => {
                let packets = frame_packets(track.stream_id, pkt.pts, pkt.dts, pkt.data);
                let inline = own && pkt.pts is Some;
                let c = if inline { b.with_last_pcr(p, guarded(pkt.pts->0)) } else { b };
                let riders = Riders {
                    pcr: if inline { Some((ring(guarded(pkt.pts->0)), 0u16)) } else { None },
                    random_access: pkt.keyframe && (!own || inline),
                    splice: c.tracks[t].splice,
                };
                done(c.splice_taken(t).frame_put(plan, t, riders, packets, packets.len() as int))
            },
        }
    }

    /// An upper bound on the packets until the clock reaches `target`.
    pub open spec fn waits(self, target: int) -> nat {
        match self.pacer->0.anchor {
            Some((b, t)) => {
                let n = b + (target - t) * self.pacer->0.rate - self.pos();
                if n > 0 { n as nat } else { 0 }
            },
            None => 0,
        }
    }

    /// After null packets, and the PCRs they make due, until the clock reaches
    /// `target`. `fuel` bounds the number of null packets.
    pub open spec fn idled(self, plan: PlanView, target: int, fuel: nat) -> FlowView
        decreases fuel,
    {
        if fuel == 0 || self.now() >= target {
            self
        } else {
            self.clocks_put(plan, plan.programs.len() as int).put(null_packet()).idled(
                plan,
                target,
                (fuel - 1) as nat,
            )
        }
    }

    /// With the clock started so that it now reads `time`, unless it runs.
    pub open spec fn clock_started(self, time: int) -> FlowView {
        let p = self.pacer->0;
        if p.anchor is Some {
            self
        } else {
            FlowView {
                pacer: Some(PacerView { anchor: Some((self.pos(), time)), ..p }),
                ..self
            }
        }
    }

    /// After a held frame. No other held frame goes out meanwhile.
    pub open spec fn delivered_held(self, plan: PlanView, t: int, pkt: PacketView) -> Outcome {
        match decode_time(pkt) {
            Some(d) if self.pacer is Some => {
                let target = ticks_27(d) - lead_of(plan.tracks[t].is_video);
                let a = self.clock_started(target);
                let b = a.idled(plan, target, a.waits(target));
                if b.now() > ticks_27(d) {
                    Outcome { flow: b, error: Some(MuxError::RateTooLow) }
                } else {
                    b.clocks_put(plan, plan.programs.len() as int).sent(plan, t, pkt, true)
                }
            },
            _ => self.sent(plan, t, pkt, self.anchored()),
        }
    }

    /// Without the first held frame of stream `t`.
    pub open spec fn popped(self, t: int) -> FlowView {
        let p = self.pacer->0;
        FlowView {
            pacer: Some(PacerView { held: p.held.update(t, p.held[t].skip(1)), ..p }),
            ..self
        }
    }

    /// After the held frames that are due by `horizon`, the earliest first.
    /// `fuel` bounds their number.
    pub open spec fn flushed(self, plan: PlanView, horizon: int, fuel: nat) -> Outcome
        decreases fuel,
    {
        let held = self.pacer->0.held;
        match first_due(held, held.len() as int) {
            Some(t) if self.pacer is Some && fuel > 0 && held_due(held[t][0]) <= horizon => {
                let o = self.popped(t).delivered_held(plan, t, held[t][0]);
                if o.error is Some {
                    o
                } else {
                    o.flow.flushed(plan, horizon, (fuel - 1) as nat)
                }
            },
            _ => done(self),
        }
    }

    /// After the held frames that are due by `horizon`.
    pub open spec fn flushed_all(self, plan: PlanView, horizon: int) -> Outcome {
        self.flushed(plan, horizon, held_count(self.pacer->0.held))
    }

    /// After held frames, PCRs and null packets until the clock reaches `target`.
    /// `fuel` bounds the number of null packets.
    pub open spec fn waited(self, plan: PlanView, target: int, fuel: nat) -> Outcome
        decreases fuel,
    {
        if fuel == 0 || self.now() >= target {
            done(self)
        } else {
            let o = self.flushed_all(plan, self.now());
            if o.error is Some || o.flow.now() >= target {
                o
            } else {
                o.flow.clocks_put(plan, plan.programs.len() as int).put(null_packet()).waited(
                    plan,
                    target,
                    (fuel - 1) as nat,
                )
            }
        }
    }

    /// Ticks that a frame of `n` bytes occupies the stream.
    pub open spec fn wire_time(self, n: int) -> int {
        (n + 256) * TICKS_PER_BYTE_RATE / self.pacer->0.rate
    }

    /// After a frame, held frames going out before it where they are due. It is
    /// refused if the clock is past its decode time, then or when they are out.
    pub open spec fn delivered(self, plan: PlanView, t: int, pkt: PacketView) -> Outcome {
        match decode_time(pkt) {
            Some(d) if self.pacer is Some => {
                let target = ticks_27(d) - lead_of(plan.tracks[t].is_video);
                let a = self.clock_started(target);
                let o = a.waited(plan, target, a.waits(target));
                if o.error is Some {
                    o
                } else if o.flow.now() > ticks_27(d) {
                    Outcome { flow: o.flow, error: Some(MuxError::RateTooLow) }
                } else {
                    let q = o.flow.flushed_all(
                        plan,
                        o.flow.now() + o.flow.wire_time(pkt.data.len() as int),
                    );
                    if q.error is Some {
                        q
                    } else if q.flow.now() > ticks_27(d) {
                        Outcome { flow: q.flow, error: Some(MuxError::RateTooLow) }
                    } else {
                        q.flow.clocks_put(plan, plan.programs.len() as int).sent(
                            plan,
                            t,
                            pkt,
                            true,
                        )
                    }
                }
            },
            _ => self.sent(plan, t, pkt, self.anchored()),
        }
    }
}

/// Before the clock reaches `target`, packets are left to wait for.
pub proof fn lemma_waits_positive(f: FlowView, target: int)
    requires
        f.anchored(),
        f.pacer->0.rate >= 1,
        f.pacer->0.anchor matches Some((b, _)) && b <= f.pos(),
        f.now() < target,
    ensures
        f.waits(target) > 0,
{
    let (b, t) = f.pacer->0.anchor->0;
    let rate = f.pacer->0.rate;
    let delta = f.pos() - b;
    let d = target - t;
    let x = delta * TICKS_PER_BYTE_RATE;
    let q = x / rate;
    assert(q < d);
    vstd::arithmetic::div_mod::lemma_fundamental_div_mod(x, rate);
    vstd::arithmetic::div_mod::lemma_mod_bound(x, rate);
    assert(x < d * rate) by (nonlinear_arith)
        requires
            x == rate * q + x % rate,
            0 <= x % rate < rate,
            q + 1 <= d,
            rate >= 1,
    ;
    assert(delta <= x);
}

impl FlowView {
    /// The output goes on from `other`, a running clock keeps running, and no
    /// frame is held that was not.
    pub open spec fn advances(self, other: FlowView) -> bool {
        &&& self.drained == other.drained
        &&& self.out.len() >= other.out.len()
        &&& self.tracks.len() == other.tracks.len()
        &&& self.programs.len() == other.programs.len()
        &&& self.pmt_cc.len() == other.pmt_cc.len()
        &&& self.pacer is Some == other.pacer is Some
        &&& self.pacer matches Some(p) ==> {
            &&& p.rate == other.pacer->0.rate
            &&& other.anchored() ==> p.anchor == other.pacer->0.anchor
            &&& held_count(p.held) <= held_count(other.pacer->0.held)
        }
    }
}

pub(crate) proof fn lemma_held_update(held: Seq<Seq<PacketView>>, t: int, q: Seq<PacketView>)
    requires
        0 <= t < held.len(),
    ensures
        held_count(held.update(t, q)) + held[t].len() == held_count(held) + q.len(),
    decreases held.len(),
{
    let u = held.update(t, q);
    if t == held.len() - 1 {
        assert(u.drop_last() =~= held.drop_last());
    } else {
        lemma_held_update(held.drop_last(), t, q);
        assert(u.drop_last() =~= held.drop_last().update(t, q));
    }
}

/// The stream found has a held frame.
pub proof fn lemma_first_due(held: Seq<Seq<PacketView>>, n: int)
    requires
        0 <= n <= held.len(),
    ensures
        first_due(held, n) matches Some(t) ==> 0 <= t < n && held[t].len() > 0,
        first_due(held, n) is None ==> forall|i: int| 0 <= i < n ==> #[trigger] held[i].len() == 0,
    decreases n,
{
    if n > 0 {
        lemma_first_due(held, n - 1);
    }
}

impl Flow {
    /// The clock runs.
    pub(crate) fn is_anchored(&self) -> (r: bool)
        ensures
            r == self@.anchored(),
    {
        match &self.pacer {
            Some(q) => q.anchor.is_some(),
            None => false,
        }
    }

    /// Time now.
    pub(crate) fn time_now(&self, plan: &Plan) -> (r: i128)
        requires
            self@.wf(plan@),
            self@.anchored(),
        ensures
            r == self@.now(),
            -0x1_0000_0000_0000_0000 <= r <= 0x1000_0000_0000_0000_0000_0000_0000,
    {
        self.time_at(self.position(), Ghost(plan@))
    }

    fn take_splice(&mut self, plan: &Plan, t: usize) -> (r: Option<SpliceSpec>)
        requires
            old(self)@.wf(plan@),
            t < plan.tracks@.len(),
        ensures
            r == old(self)@.tracks[t as int].splice,
            r matches Some(s) ==> s.wf(),
            final(self)@ == old(self)@.splice_taken(t as int),
            final(self)@.wf(plan@),
            final(self)@.follows(old(self)@),
    {
        let mut flow: TrackFlow = self.tracks[t];
        assert(self@.tracks[t as int].wf());
        let r: Option<SpliceSpec> = flow.splice;
        flow.splice = None;
        self.tracks.set(t, flow);
        assert(self@ =~= old(self)@.splice_taken(t as int));
        r
    }

    /// Write the PCRs that are owed before a frame off the byte clock.
    fn write_pcrs_before(&mut self, plan: &Plan, t: usize, pts: Option<i64>, paced: bool)
        requires
            plan@.wf(),
            old(self)@.wf(plan@),
            t < plan.tracks@.len(),
        ensures
            final(self)@ == old(self)@.pcrs_before(plan@, t as int, pts, paced),
            final(self)@.wf(plan@),
            final(self)@.follows(old(self)@),
    {
        let track: TrackPlan = plan.tracks[t];
        assert(plan@.tracks[t as int] == track);
        let p: usize = track.program;
        assert(plan@.programs[p as int] == plan.programs@[p as int]);
        if let Some(x) = pts {
            if track.pid == plan.programs[p].pcr_pid {
                if self.pacer.is_none() {
                    self.backfill_pcr_chain(plan, p, guard(x));
                }
            } else if !paced {
                self.maybe_emit_periodic_pcr(plan, p, x);
            }
        }
    }

    /// Write the PES packets of a frame.
    fn write_frame(&mut self, plan: &Plan, t: usize, riders: &Riders, packets: &Vec<Vec<u8>>)
        requires
            plan@.wf(),
            old(self)@.wf(plan@),
            t < plan.tracks@.len(),
            riders.wf(),
        ensures
            final(self)@ == old(self)@.frame_put(
                plan@,
                t as int,
                *riders,
                crate::psi::assembler::bytes_of(packets@),
                packets@.len() as int,
            ),
            final(self)@.wf(plan@),
            final(self)@.follows(old(self)@),
    {
        let ghost all = crate::psi::assembler::bytes_of(packets@);
        let mut i: usize = 0;
        while i < packets.len()
            invariant
                plan@.wf(),
                self@.wf(plan@),
                t < plan.tracks@.len(),
                riders.wf(),
                i <= packets@.len(),
                all == crate::psi::assembler::bytes_of(packets@),
                self@ == old(self)@.frame_put(plan@, t as int, *riders, all, i as int),
                self@.follows(old(self)@),
            decreases packets@.len() - i,
        {
            let here: Riders = Riders {
                pcr: if i == 0 { riders.pcr } else { None },
                random_access: i == 0 && riders.random_access,
                splice: if i == packets.len() - 1 { riders.splice } else { None },
            };
            assert(here == riders_for(*riders, i as int, all.len() - 1));
            self.write_pes_bytes_as_ts(plan, t, &here, packets[i].as_slice());
            i += 1;
        }
    }

    /// Write a frame on stream `t` now.
    fn send(&mut self, plan: &Plan, t: usize, pkt: &MuxPacket, paced: bool) -> (r: Result<
        (),
        MuxError,
    >)
        requires
            plan@.wf(),
            old(self)@.wf(plan@),
            t < plan.tracks@.len(),
        ensures
            final(self)@ == old(self)@.sent(plan@, t as int, pkt@, paced).flow,
            agrees(r, old(self)@.sent(plan@, t as int, pkt@, paced)),
            final(self)@.wf(plan@),
            final(self)@.follows(old(self)@),
    {
        proof {
            reveal(FlowView::sent);
        }
        let track: TrackPlan = plan.tracks[t];
        assert(plan@.tracks[t as int] == track);
        let p: usize = track.program;
        assert(plan@.programs[p as int] == plan.programs@[p as int]);
        let own: bool = track.pid == plan.programs[p].pcr_pid;
        self.write_pcrs_before(plan, t, pkt.pts, paced);
        let packets: Vec<Vec<u8>> = match build_pes(track.stream_id, pkt) {
            Ok(v) => v,
            Err(e) => {
                return Err(MuxError::Format(e));
            },
        };
        let mut pcr: Option<(u64, u16)> = None;
        if own {
            if let Some(x) = pkt.pts {
                let base: i64 = guard(x);
                self.note_pcr(plan, p, base);
                pcr = Some((to_ring(base), 0));
            }
        }
        let splice: Option<SpliceSpec> = self.take_splice(plan, t);
        let riders: Riders = Riders {
            pcr,
            random_access: pkt.keyframe && (!own || pcr.is_some()),
            splice,
        };
        self.write_frame(plan, t, &riders, &packets);
        Ok(())
    }

    /// Write null packets, and the PCRs they make due, until the clock reaches
    /// `target`.
    fn idle_until(&mut self, plan: &Plan, target: i128)
        requires
            plan@.wf(),
            old(self)@.wf(plan@),
            old(self)@.anchored(),
        ensures
            final(self)@ == old(self)@.idled(
                plan@,
                target as int,
                old(self)@.waits(target as int),
            ),
            final(self)@.now() >= target,
            final(self)@.wf(plan@),
            final(self)@.follows(old(self)@),
    {
        let ghost mut fuel: nat = self@.waits(target as int);
        while self.time_now(plan) < target
            invariant
                plan@.wf(),
                self@.wf(plan@),
                self@.anchored(),
                self@.waits(target as int) <= fuel,
                self@.idled(plan@, target as int, fuel) == old(self)@.idled(
                    plan@,
                    target as int,
                    old(self)@.waits(target as int),
                ),
                self@.follows(old(self)@),
            decreases fuel,
        {
            proof {
                lemma_waits_positive(self@, target as int);
                fuel = (fuel - 1) as nat;
            }
            self.maybe_pcr_all(plan);
            self.emit_null(Ghost(plan@));
        }
    }

    /// Start the clock so that it now reads `time`, unless it runs.
    fn start_clock(&mut self, plan: &Plan, time: i128)
        requires
            old(self)@.wf(plan@),
            old(self).pacer is Some,
            -0x1_0000_0000_0000_0000 <= time <= 0x1_0000_0000_0000_0000,
        ensures
            final(self)@ == old(self)@.clock_started(time as int),
            final(self)@.anchored(),
            final(self)@.wf(plan@),
            final(self)@.advances(old(self)@),
            old(self)@.anchored() ==> final(self)@ == old(self)@,
            final(self)@.pacer->0.held == old(self)@.pacer->0.held,
    {
        let here: u128 = self.position();
        if let Some(mut q) = self.pacer.take() {
            if q.anchor.is_none() {
                q.anchor = Some((here, time));
            }
            self.pacer = Some(q);
        }
        assert(self@ =~= old(self)@.clock_started(time as int));
        assert(self@.pacer->0.wf(self@.pos(), plan@.programs.len(), plan@.tracks.len()));
    }

    /// Write a held frame.
    fn write_held(&mut self, plan: &Plan, t: usize, pkt: &MuxPacket) -> (r: Result<(), MuxError>)
        requires
            plan@.wf(),
            old(self)@.wf(plan@),
            old(self).pacer is Some,
            t < plan.tracks@.len(),
        ensures
            final(self)@ == old(self)@.delivered_held(plan@, t as int, pkt@).flow,
            agrees(r, old(self)@.delivered_held(plan@, t as int, pkt@)),
            final(self)@.wf(plan@),
            final(self)@.advances(old(self)@),
            final(self)@.pacer->0.held == old(self)@.pacer->0.held,
    {
        let time: Option<i64> = match pkt.dts {
            Some(d) => Some(d),
            None => pkt.pts,
        };
        match time {
            Some(d90) => {
                let d: i128 = to_27(d90);
                let target: i128 = d - (if plan.tracks[t].is_video {
                    CBR_TARGET_LEAD_27MHZ
                } else {
                    CBR_AUDIO_LEAD_27MHZ
                });
                self.start_clock(plan, target);
                self.idle_until(plan, target);
                if self.time_now(plan) > d {
                    return Err(MuxError::RateTooLow);
                }
                self.maybe_pcr_all(plan);
                self.send(plan, t, pkt, true)
            },
            None => {
                let paced: bool = self.is_anchored();
                self.send(plan, t, pkt, paced)
            },
        }
    }
}

impl Flow {
    /// The stream whose first held frame is due first.
    fn find_due(&self, plan: &Plan) -> (r: Option<usize>)
        requires
            self@.wf(plan@),
            self.pacer is Some,
        ensures
            match r {
                Some(t) => first_due(self@.pacer->0.held, self@.pacer->0.held.len() as int) == Some(
                    t as int,
                ) && t < plan.tracks@.len() && self@.pacer->0.held[t as int].len() > 0,
                None => first_due(
                    self@.pacer->0.held,
                    self@.pacer->0.held.len() as int,
                ) is None,
            },
    {
        let ghost held = self@.pacer->0.held;
        match &self.pacer {
            Some(q) => {
                let mut best: Option<(usize, i128)> = None;
                let mut i: usize = 0;
                while i < q.held.len()
                    invariant
                        i <= q.held@.len(),
                        held == q@.held,
                        held.len() == q.held@.len(),
                        match best {
                            Some((t, due)) => first_due(held, i as int) == Some(t as int) && t < i
                                && held[t as int].len() > 0 && due == held_due(held[t as int][0]),
                            None => first_due(held, i as int) is None,
                        },
                    decreases q.held@.len() - i,
                {
                    assert(held[i as int] == packets_of(q.held@[i as int]@));
                    if q.held[i].len() > 0 {
                        let due: i128 = due_of(&q.held[i][0]);
                        let sooner: bool = match best {
                            Some((_, b)) => due < b,
                            None => true,
                        };
                        if sooner {
                            best = Some((i, due));
                        }
                    }
                    i += 1;
                }
                match best {
                    Some((t, _)) => Some(t),
                    None => None,
                }
            },
            None => None,
        }
    }

    /// Take out the first held frame of stream `t`.
    fn pop_held(&mut self, plan: &Plan, t: usize) -> (r: MuxPacket)
        requires
            old(self)@.wf(plan@),
            old(self).pacer is Some,
            t < plan.tracks@.len(),
            old(self)@.pacer->0.held[t as int].len() > 0,
        ensures
            r@ == old(self)@.pacer->0.held[t as int][0],
            final(self)@ == old(self)@.popped(t as int),
            final(self)@.wf(plan@),
            final(self)@.advances(old(self)@),
            final(self)@.anchored() == old(self)@.anchored(),
            held_count(final(self)@.pacer->0.held) + 1 == held_count(old(self)@.pacer->0.held),
    {
        let ghost before = self@.pacer->0.held;
        let mut r: MuxPacket = MuxPacket {
            stream_index: 0,
            pts: None,
            dts: None,
            keyframe: false,
            data: Vec::new(),
        };
        if let Some(mut q) = self.pacer.take() {
            let ghost q0 = q@;
            assert(q0.held[t as int] == packets_of(q.held@[t as int]@));
            let mut queue: Vec<MuxPacket> = q.held.remove(t);
            r = queue.remove(0);
            q.held.insert(t, queue);
            assert(packets_of(queue@) =~= before[t as int].skip(1));
            assert(q@.held =~= before.update(t as int, before[t as int].skip(1)));
            self.pacer = Some(q);
        }
        proof {
            lemma_held_update(before, t as int, before[t as int].skip(1));
        }
        assert(self@ =~= old(self)@.popped(t as int));
        assert(self@.pacer->0.wf(self@.pos(), plan@.programs.len(), plan@.tracks.len()));
        r
    }

    /// Hold a frame of stream `t`.
    pub(crate) fn hold(&mut self, plan: &Plan, t: usize, pkt: MuxPacket)
        requires
            old(self)@.wf(plan@),
            old(self).pacer is Some,
            t < plan.tracks@.len(),
        ensures
            final(self)@ == old(self)@.holding(t as int, pkt@),
            final(self)@.wf(plan@),
    {
        let ghost before = self@.pacer->0.held;
        if let Some(mut q) = self.pacer.take() {
            assert(q@.held[t as int] == packets_of(q.held@[t as int]@));
            let mut queue: Vec<MuxPacket> = q.held.remove(t);
            let ghost frame = pkt@;
            queue.push(pkt);
            q.held.insert(t, queue);
            assert(packets_of(queue@) =~= before[t as int].push(frame));
            assert(q@.held =~= before.update(t as int, before[t as int].push(frame)));
            self.pacer = Some(q);
        }
        assert(self@ =~= old(self)@.holding(t as int, pkt@));
        assert(self@.pacer->0.wf(self@.pos(), plan@.programs.len(), plan@.tracks.len()));
    }

    /// Write the held frames that are due by `horizon`, the earliest first.
    pub(crate) fn flush_due(&mut self, plan: &Plan, horizon: i128) -> (r: Result<(), MuxError>)
        requires
            plan@.wf(),
            old(self)@.wf(plan@),
            old(self)@.anchored(),
        ensures
            final(self)@ == old(self)@.flushed_all(plan@, horizon as int).flow,
            agrees(r, old(self)@.flushed_all(plan@, horizon as int)),
            final(self)@.wf(plan@),
            final(self)@.anchored(),
            final(self)@.advances(old(self)@),
    {
        let ghost mut fuel: nat = held_count(self@.pacer->0.held);
        let mut going: bool = true;
        while going
            invariant
                plan@.wf(),
                self@.wf(plan@),
                self@.anchored(),
                self@.advances(old(self)@),
                fuel == held_count(self@.pacer->0.held),
                going ==> self@.flushed(plan@, horizon as int, fuel) == old(self)@.flushed_all(
                    plan@,
                    horizon as int,
                ),
                !going ==> old(self)@.flushed_all(plan@, horizon as int) == done(self@),
            decreases fuel + (if going { 1int } else { 0 }),
        {
            match self.find_due(plan) {
                None => {
                    going = false;
                },
                Some(t) => {
                    let due: i128 = match &self.pacer {
                        Some(q) => {
                            assert(q@.held[t as int] == packets_of(q.held@[t as int]@));
                            due_of(&q.held[t][0])
                        },
                        None => 0,
                    };
                    if due > horizon {
                        going = false;
                    } else {
                        proof {
                            lemma_held_some(self@.pacer->0.held, t as int);
                            fuel = (fuel - 1) as nat;
                        }
                        let pkt: MuxPacket = self.pop_held(plan, t);
                        self.write_held(plan, t, &pkt)?;
                    }
                },
            }
        }
        Ok(())
    }

    /// Write held frames, PCRs and null packets until the clock reaches `target`.
    fn wait_until(&mut self, plan: &Plan, target: i128) -> (r: Result<(), MuxError>)
        requires
            plan@.wf(),
            old(self)@.wf(plan@),
            old(self)@.anchored(),
        ensures
            final(self)@ == old(self)@.waited(
                plan@,
                target as int,
                old(self)@.waits(target as int),
            ).flow,
            agrees(
                r,
                old(self)@.waited(plan@, target as int, old(self)@.waits(target as int)),
            ),
            r is Ok ==> final(self)@.now() >= target,
            final(self)@.wf(plan@),
            final(self)@.anchored(),
            final(self)@.advances(old(self)@),
    {
        let ghost mut fuel: nat = self@.waits(target as int);
        let ghost want = old(self)@.waited(
            plan@,
            target as int,
            old(self)@.waits(target as int),
        );
        let mut now: i128 = self.time_now(plan);
        while now < target
            invariant
                plan@.wf(),
                self@.wf(plan@),
                self@.anchored(),
                now == self@.now(),
                self@.waits(target as int) <= fuel,
                want == old(self)@.waited(
                    plan@,
                    target as int,
                    old(self)@.waits(target as int),
                ),
                self@.waited(plan@, target as int, fuel) == want,
                self@.advances(old(self)@),
            decreases fuel,
        {
            let ghost before = self@;
            proof {
                lemma_waits_positive(self@, target as int);
            }
            self.flush_due(plan, now)?;
            now = self.time_now(plan);
            if now >= target {
                return Ok(());
            }
            proof {
                fuel = (fuel - 1) as nat;
            }
            self.maybe_pcr_all(plan);
            self.emit_null(Ghost(plan@));
            now = self.time_now(plan);
        }
        Ok(())
    }

    /// Write a frame on stream `t`: right away, or when the clock says so, held
    /// frames that are due going out before it.
    pub(crate) fn write_pes_packet(&mut self, plan: &Plan, t: usize, pkt: &MuxPacket) -> (r: Result<
        (),
        MuxError,
    >)
        requires
            plan@.wf(),
            old(self)@.wf(plan@),
            t < plan.tracks@.len(),
        ensures
            final(self)@ == old(self)@.delivered(plan@, t as int, pkt@).flow,
            agrees(r, old(self)@.delivered(plan@, t as int, pkt@)),
            final(self)@.wf(plan@),
            final(self)@.advances(old(self)@),
    {
        let time: Option<i64> = match pkt.dts {
            Some(d) => Some(d),
            None => pkt.pts,
        };
        let rate: u64 = match &self.pacer {
            Some(q) => q.rate,
            None => {
                return self.send(plan, t, pkt, false);
            },
        };
        match time {
            Some(d90) => {
                let d: i128 = to_27(d90);
                let target: i128 = d - (if plan.tracks[t].is_video {
                    CBR_TARGET_LEAD_27MHZ
                } else {
                    CBR_AUDIO_LEAD_27MHZ
                });
                self.start_clock(plan, target);
                self.wait_until(plan, target)?;
                let now: i128 = self.time_now(plan);
                if now > d {
                    return Err(MuxError::RateTooLow);
                }
                let wire: u128 = (pkt.data.len() as u128 + 256) * 216_000_000 / rate as u128;
                proof {
                    lemma_quotient_at_most((pkt.data.len() + 256) * 216_000_000, rate as int);
                }
                self.flush_due(plan, now + wire as i128)?;
                if self.time_now(plan) > d {
                    return Err(MuxError::RateTooLow);
                }
                self.maybe_pcr_all(plan);
                self.send(plan, t, pkt, true)
            },
            None => {
                let paced: bool = self.is_anchored();
                self.send(plan, t, pkt, paced)
            },
        }
    }

    /// Write every held frame, the earliest first and each at its own time.
    pub(crate) fn release_held(&mut self, plan: &Plan) -> (r: Result<(), MuxError>)
        requires
            plan@.wf(),
            old(self)@.wf(plan@),
        ensures
            final(self)@ == old(self)@.released_all(plan@).flow,
            agrees(r, old(self)@.released_all(plan@)),
            final(self)@.wf(plan@),
            final(self)@.advances(old(self)@),
    {
        if self.pacer.is_none() {
            return Ok(());
        }
        let ghost mut fuel: nat = held_count(self@.pacer->0.held);
        let mut going: bool = true;
        while going
            invariant
                plan@.wf(),
                self@.wf(plan@),
                self.pacer is Some,
                self@.advances(old(self)@),
                held_count(self@.pacer->0.held) <= fuel,
                going ==> self@.released(plan@, fuel) == old(self)@.released_all(plan@),
                !going ==> old(self)@.released_all(plan@) == done(self@),
            decreases fuel + (if going { 1int } else { 0 }),
        {
            match self.find_due(plan) {
                None => {
                    going = false;
                },
                Some(t) => {
                    proof {
                        lemma_held_some(self@.pacer->0.held, t as int);
                        fuel = (fuel - 1) as nat;
                    }
                    let pkt: MuxPacket = self.pop_held(plan, t);
                    self.write_held(plan, t, &pkt)?;
                },
            }
        }
        Ok(())
    }
}

proof fn lemma_held_some(held: Seq<Seq<PacketView>>, t: int)
    requires
        0 <= t < held.len(),
        held[t].len() > 0,
    ensures
        held_count(held) > 0,
    decreases held.len(),
{
    if t < held.len() - 1 {
        lemma_held_some(held.drop_last(), t);
    }
}

proof fn lemma_quotient_at_most(x: int, c: int)
    by (nonlinear_arith)
    requires
        x >= 0,
        c >= 1,
    ensures
        0 <= x / c <= x,
{
}

impl FlowView {
    /// With one more held frame of stream `t`.
    pub open spec fn holding(self, t: int, pkt: PacketView) -> FlowView {
        let p = self.pacer->0;
        FlowView {
            pacer: Some(PacerView { held: p.held.update(t, p.held[t].push(pkt)), ..p }),
            ..self
        }
    }

    /// After held frames, the earliest first and each at its own time, at most
    /// `fuel` of them.
    pub open spec fn released(self, plan: PlanView, fuel: nat) -> Outcome
        decreases fuel,
    {
        let held = self.pacer->0.held;
        match first_due(held, held.len() as int) {
            Some(t) if self.pacer is Some && fuel > 0 => {
                let o = self.popped(t).delivered_held(plan, t, held[t][0]);
                if o.error is Some {
                    o
                } else {
                    o.flow.released(plan, (fuel - 1) as nat)
                }
            },
            _ => done(self),
        }
    }

    /// After every held frame, the earliest first and each at its own time.
    pub open spec fn released_all(self, plan: PlanView) -> Outcome {
        if self.pacer is None {
            done(self)
        } else {
            self.released(plan, held_count(self.pacer->0.held))
        }
    }
}

} // verus!
