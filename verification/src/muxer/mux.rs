//! The multiplexer itself.
use std::collections::BTreeMap;
use vstd::prelude::*;

use crate::muxer::config::{
    MpegTsMuxConfig, MuxError, MuxPacket, MuxStream, ProgramSpec, SpliceSpec,
};
use crate::muxer::emit::tb_key;
use crate::muxer::flow::{
    Flow, FlowView, Pacer, PacerView, PacketView, Plan, PlanView, ProgramFlow, Slot, TableCounters,
    TrackFlow, BSYS_PACKET_SCALED, BSYS_SIZE_SCALED,
};
use crate::muxer::plan::{draft_of, plan_of, Draft, DraftView};

verus! {

/// PID of the PMT of the single-program multiplexer.
pub const DEFAULT_PMT_PID: u16 = 0x0100;

/// Number of its program.
pub const DEFAULT_PROGRAM_NUMBER: u16 = 1;

/// Default interval of the tables, in 90 kHz ticks: 200 ms.
pub const DEFAULT_PSI_INTERVAL_90K: i64 = 18_000;

/// Writes frames of elementary streams as transport-stream packets.
pub struct MpegTsMuxer {
    plan: Plan,
    flow: Flow,
    psi_repetition_90k: Option<i64>,
    last_psi_pts: Option<i64>,
    header_written: bool,
}

/// The state of a multiplexer.
#[verifier::ext_equal]
pub struct MuxView {
    /// The layout.
    pub plan: PlanView,
    /// What has been written, and what is carried along.
    pub flow: FlowView,
    /// Interval of the tables.
    pub psi_repetition: Option<i64>,
    /// PTS at which they were last written.
    pub last_psi: Option<i64>,
    /// The header is written.
    pub header_written: bool,
}

/// What came of a call.
#[verifier::ext_equal]
pub struct MuxOutcome {
    /// The state, whatever came of it.
    pub mux: MuxView,
    /// Why it was refused.
    pub error: Option<MuxError>,
}

/// The result says what the outcome does.
pub open spec fn answers(r: Result<(), MuxError>, o: MuxOutcome) -> bool {
    match r {
        Ok(_) => o.error is None,
        Err(e) => o.error == Some(e),
    }
}

/// The stream from position `i` on that packets with `index` belong to.
pub open spec fn track_for_index(plan: PlanView, index: u32, i: int) -> Option<int>
    decreases plan.tracks.len() - i,
{
    if i < 0 || i >= plan.tracks.len() {
        None
    } else if plan.tracks[i].stream_index == index {
        Some(i)
    } else {
        track_for_index(plan, index, i + 1)
    }
}

/// The program from position `i` on with number `number`.
pub open spec fn program_for(plan: PlanView, number: u16, i: int) -> Option<int>
    decreases plan.programs.len() - i,
{
    if i < 0 || i >= plan.programs.len() {
        None
    } else if plan.programs[i].number == number {
        Some(i)
    } else {
        program_for(plan, number, i + 1)
    }
}

/// Nothing written yet.
pub open spec fn fresh_flow(plan: PlanView) -> FlowView {
    FlowView {
        out: Seq::empty(),
        drained: 0,
        tracks: Seq::new(
            plan.tracks.len(),
            |i: int| TrackFlow { cc: 0, splice: None, after_splice: None },
        ),
        programs: Seq::new(
            plan.programs.len(),
            |i: int| ProgramFlow { last_pcr: None, discontinuity: false },
        ),
        table_cc: TableCounters { pat: 0, sdt: 0, nit: 0, eit: 0 },
        pmt_cc: Seq::new(plan.programs.len(), |i: int| 0u8),
        pacer: None,
    }
}

/// Pacing at `rate` from byte position `pos` on.
pub open spec fn fresh_pacer(plan: PlanView, rate: u64, pos: int) -> PacerView {
    PacerView {
        rate: if rate == 0 { 1 } else { rate as int },
        anchor: None,
        last_pcr: Seq::new(plan.programs.len(), |i: int| None),
        tb: Map::empty(),
        bsys: (0, pos),
        held: Seq::new(plan.tracks.len(), |i: int| Seq::empty()),
    }
}

/// Why a splicing point is refused on a stream.
pub open spec fn splice_error(spec: SpliceSpec, is_video: bool) -> Option<MuxError> {
    match spec.seamless {
        Some(s) => if s.splice_type > 0xF {
            Some(MuxError::SpliceTypeTooWide)
        } else if s.dts_next_au > 0x1_FFFF_FFFF {
            Some(MuxError::DtsNextAuTooWide)
        } else if !is_video && s.splice_type != 0 {
            Some(MuxError::SpliceTypeNotVideo)
        } else {
            None
        },
        None => None,
    }
}

impl MuxView {
    /// Everything is in range.
    pub open spec fn wf(self) -> bool {
        self.plan.wf() && self.flow.wf(self.plan)
    }

    /// A multiplexer before its first call.
    pub open spec fn fresh(plan: PlanView) -> MuxView {
        MuxView {
            plan,
            flow: fresh_flow(plan),
            psi_repetition: Some(DEFAULT_PSI_INTERVAL_90K),
            last_psi: None,
            header_written: false,
        }
    }

    /// With the state `flow`.
    pub open spec fn with_flow(self, flow: FlowView) -> MuxView {
        MuxView { flow, ..self }
    }

    /// With the output paced at `rate`, or not at all.
    pub open spec fn rate_set(self, rate: Option<u64>) -> MuxView {
        self.with_flow(
            FlowView {
                pacer: match rate {
                    Some(r) => Some(fresh_pacer(self.plan, r, self.flow.pos())),
                    None => None,
                },
                ..self.flow
            },
        )
    }

    /// After the tables.
    pub open spec fn tables_written(self) -> MuxView {
        self.with_flow(self.flow.tables_put(self.plan, self.plan.tables.len() as int))
    }

    /// There is room for the tables of the system branch, one packet each, in the
    /// system buffer; always so without pacing.
    pub open spec fn tables_fit(self) -> bool {
        match self.flow.pacer {
            None => true,
            Some(p) => p.bsys_level(self.flow.pos()) + (1 + self.plan.programs.len())
                * BSYS_PACKET_SCALED * p.rate <= BSYS_SIZE_SCALED * p.rate,
        }
    }

    /// After the tables, if they are due at `pts`. The first PTS starts the
    /// interval. Under pacing they wait until the system buffer has room.
    pub open spec fn tables_repeated(self, pts: i64) -> MuxView {
        match self.psi_repetition {
            Some(interval) if interval > 0 => match self.last_psi {
                None => MuxView { last_psi: Some(pts), ..self },
                Some(last) => if pts - last >= interval && self.tables_fit() {
                    MuxView { last_psi: Some(pts), ..self.tables_written() }
                } else {
                    self
                },
            },
            _ => self,
        }
    }

    /// After a frame.
    pub open spec fn packet_written(self, pkt: PacketView) -> MuxOutcome {
        if !self.header_written {
            MuxOutcome { mux: self, error: Some(MuxError::HeaderNotWritten) }
        } else {
            match track_for_index(self.plan, pkt.stream_index, 0) {
                None => MuxOutcome {
                    mux: self,
                    error: Some(MuxError::NoSuchStream { stream_index: pkt.stream_index }),
                },
                Some(t) => {
                    let a = match pkt.pts {
                        Some(x) => self.tables_repeated(x),
                        None => self,
                    };
                    let o = if a.flow.anchored() && !self.plan.tracks[t].is_video && pkt.pts is Some {
                        let held = a.flow.holding(t, pkt);
                        held.flushed_all(self.plan, held.now())
                    } else {
                        a.flow.delivered(self.plan, t, pkt)
                    };
                    MuxOutcome { mux: a.with_flow(o.flow), error: o.error }
                },
            }
        }
    }

    /// After the end of the stream: every held frame, then the tables.
    pub open spec fn trailer_written(self) -> MuxOutcome {
        let o = self.flow.released_all(self.plan);
        let a = self.with_flow(o.flow);
        if o.error is Some {
            MuxOutcome { mux: a, error: o.error }
        } else {
            MuxOutcome { mux: a.tables_written(), error: None }
        }
    }

    /// With splicing point `spec` after the next frame of a stream.
    pub open spec fn splice_armed(self, index: u32, spec: SpliceSpec) -> MuxOutcome {
        match track_for_index(self.plan, index, 0) {
            None => MuxOutcome {
                mux: self,
                error: Some(MuxError::NoSuchStream { stream_index: index }),
            },
            Some(t) => if splice_error(spec, self.plan.tracks[t].is_video) is Some {
                MuxOutcome {
                    mux: self,
                    error: splice_error(spec, self.plan.tracks[t].is_video),
                }
            } else {
                let capped = SpliceSpec {
                    post_splice_packets: if spec.post_splice_packets > 127 {
                        127
                    } else {
                        spec.post_splice_packets
                    },
                    ..spec
                };
                let f = self.flow;
                MuxOutcome {
                    mux: self.with_flow(
                        FlowView {
                            tracks: f.tracks.update(
                                t,
                                TrackFlow { splice: Some(capped), ..f.tracks[t] },
                            ),
                            ..f
                        },
                    ),
                    error: None,
                }
            },
        }
    }

    /// With a new time base to come in program `p`.
    pub open spec fn base_broken(self, p: int) -> MuxView {
        let f = self.flow;
        self.with_flow(
            FlowView {
                programs: f.programs.update(p, ProgramFlow { last_pcr: None, discontinuity: true }),
                pacer: match f.pacer {
                    Some(q) => Some(
                        PacerView { anchor: None, last_pcr: q.last_pcr.update(p, None), ..q },
                    ),
                    None => None,
                },
                ..f
            },
        )
    }

    /// After the announcement of a new time base: every held frame goes out on
    /// the old one.
    pub open spec fn discontinuity_armed(self, number: u16) -> MuxOutcome {
        match program_for(self.plan, number, 0) {
            None => MuxOutcome {
                mux: self,
                error: Some(MuxError::NoSuchProgram { program_number: number }),
            },
            Some(p) => {
                let o = self.flow.released_all(self.plan);
                let a = self.with_flow(o.flow);
                if o.error is Some {
                    MuxOutcome { mux: a, error: o.error }
                } else {
                    MuxOutcome { mux: a.base_broken(p), error: None }
                }
            },
        }
    }
}

impl View for MpegTsMuxer {
    type V = MuxView;

    closed spec fn view(&self) -> MuxView {
        MuxView {
            plan: self.plan@,
            flow: self.flow@,
            psi_repetition: self.psi_repetition_90k,
            last_psi: self.last_psi_pts,
            header_written: self.header_written,
        }
    }
}

/// The configuration of the single-program multiplexer: every stream in one
/// program.
pub open spec fn is_single_program(config: MpegTsMuxConfig, streams: Seq<MuxStream>) -> bool {
    &&& config.transport_stream_id == 1
    &&& config.original_network_id == 1
    &&& config.network is None
    &&& config.programs@.len() == 1
    &&& config.programs@[0].program_number == DEFAULT_PROGRAM_NUMBER
    &&& config.programs@[0].pmt_pid == DEFAULT_PMT_PID
    &&& config.programs@[0].pcr_pid is None
    &&& config.programs@[0].stream_indices@ == streams.map_values(|s: MuxStream| s.index)
    &&& config.programs@[0].service is None
    &&& config.programs@[0].events@.len() == 0
    &&& config.programs@[0].es_descriptors@.len() == 0
}

impl MpegTsMuxer {
    /// A multiplexer of one program with every stream.
    pub fn new(streams: &[MuxStream]) -> (r: Result<Self, MuxError>)
        ensures
            exists|config: MpegTsMuxConfig| #[trigger]
                is_single_program(config, streams@) && match r {
                    Ok(m) => draft_of(streams@, config) is Ok && m@ == MuxView::fresh(
                        plan_of(draft_of(streams@, config)->Ok_0, config),
                    ) && m@.wf(),
                    Err(e) => draft_of(streams@, config) == Err::<DraftView, MuxError>(e),
                },
    {
        let mut indices: Vec<u32> = Vec::new();
        let mut i: usize = 0;
        while i < streams.len()
            invariant
                i <= streams@.len(),
                indices@.len() == i,
                forall|j: int| 0 <= j < i ==> #[trigger] indices@[j] == streams@[j].index,
            decreases streams@.len() - i,
        {
            indices.push(streams[i].index);
            i += 1;
        }
        assert(indices@ =~= streams@.map_values(|s: MuxStream| s.index));
        let mut programs: Vec<ProgramSpec> = Vec::new();
        programs.push(
            ProgramSpec {
                program_number: DEFAULT_PROGRAM_NUMBER,
                pmt_pid: DEFAULT_PMT_PID,
                pcr_pid: None,
                stream_indices: indices,
                service: None,
                events: Vec::new(),
                es_descriptors: Vec::new(),
            },
        );
        let config: MpegTsMuxConfig = MpegTsMuxConfig {
            transport_stream_id: 1,
            original_network_id: 1,
            programs,
            network: None,
        };
        assert(is_single_program(config, streams@));
        Self::with_config(streams, &config)
    }

    /// A multiplexer of the programs of `config`. Streams get PIDs from 0x1011 on,
    /// in the order of the programs.
    pub fn with_config(streams: &[MuxStream], config: &MpegTsMuxConfig) -> (r: Result<
        Self,
        MuxError,
    >)
        ensures
            match r {
                Ok(m) => draft_of(streams@, *config) is Ok && m@ == MuxView::fresh(
                    plan_of(draft_of(streams@, *config)->Ok_0, *config),
                ) && m@.wf(),
                Err(e) => draft_of(streams@, *config) == Err::<DraftView, MuxError>(e),
            },
    {
        let draft: Draft = Draft::lay_out(streams, config)?;
        let plan: Plan = draft.finish(config);
        let flow: Flow = fresh(&plan);
        let m: MpegTsMuxer = MpegTsMuxer {
            plan,
            flow,
            psi_repetition_90k: Some(DEFAULT_PSI_INTERVAL_90K),
            last_psi_pts: None,
            header_written: false,
        };
        assert(m@ =~= MuxView::fresh(plan@));
        Ok(m)
    }

    /// Pace the output at `rate_bps`, or not at all. To be called before the
    /// header is written.
    pub fn set_mux_rate(&mut self, rate_bps: Option<u64>)
        requires
            old(self)@.wf(),
        ensures
            final(self)@ == old(self)@.rate_set(rate_bps),
            final(self)@.wf(),
    {
        self.flow.pacer =
        match rate_bps {
            Some(rate) => Some(pacing(&self.plan, rate, self.flow.position())),
            None => None,
        };
        assert(self@.flow =~= old(self)@.rate_set(rate_bps).flow);
    }

    /// Interval of the tables in 90 kHz ticks; `None` writes them with header and
    /// trailer only.
    pub fn set_psi_repetition_interval(&mut self, ticks: Option<i64>)
        requires
            old(self)@.wf(),
        ensures
            final(self)@ == (MuxView { psi_repetition: ticks, ..old(self)@ }),
            final(self)@.wf(),
    {
        self.psi_repetition_90k = ticks;
    }

    /// What has been written since the last call. Nothing is handed out once the
    /// total would pass 64 bits.
    pub fn take_output(&mut self) -> (r: Vec<u8>)
        requires
            old(self)@.wf(),
        ensures
            final(self)@.wf(),
            old(self)@.flow.pos() <= u64::MAX ==> {
                &&& r@ == old(self)@.flow.out
                &&& final(self)@ == old(self)@.with_flow(
                    FlowView {
                        out: Seq::empty(),
                        drained: old(self)@.flow.pos(),
                        ..old(self)@.flow
                    },
                )
            },
            old(self)@.flow.pos() > u64::MAX ==> r@.len() == 0 && final(self)@ == old(self)@,
    {
        let n: u128 = self.flow.position();
        if n > u64::MAX as u128 {
            return Vec::new();
        }
        let mut r: Vec<u8> = Vec::new();
        std::mem::swap(&mut r, &mut self.flow.out);
        self.flow.drained = n as u64;
        assert(self@.flow =~= FlowView {
            out: Seq::empty(),
            drained: old(self)@.flow.pos(),
            ..old(self)@.flow
        });
        r
    }

    /// The layout: streams, programs and tables.
    pub fn plan(&self) -> (r: &Plan)
        ensures
            r@ == self@.plan,
    {
        &self.plan
    }

    /// Write a section on PID `pid`, in as many packets as it takes, with the
    /// continuity counter of `slot`.
    pub fn write_psi_packet(&mut self, pid: u16, slot: Slot, section: &[u8])
        requires
            old(self)@.wf(),
            old(self)@.plan.has_slot(slot),
        ensures
            final(self)@ == old(self)@.with_flow(
                old(self)@.flow.section_put(
                    pid,
                    slot,
                    tb_key(old(self)@.plan, pid),
                    section@,
                    true,
                ),
            ),
            final(self)@.wf(),
    {
        self.flow.write_psi_packet(&self.plan, pid, slot, section);
    }

    /// Write the tables.
    fn write_tables(&mut self)
        requires
            old(self)@.wf(),
        ensures
            final(self)@ == old(self)@.tables_written(),
            final(self)@.wf(),
    {
        self.flow.write_tables(&self.plan);
    }

    /// Write the header: every table.
    pub fn write_header(&mut self)
        requires
            old(self)@.wf(),
        ensures
            final(self)@ == (MuxView { header_written: true, ..old(self)@.tables_written() }),
            final(self)@.wf(),
    {
        self.write_tables();
        self.header_written = true;
    }

    fn have_room(&self) -> (r: bool)
        requires
            self@.wf(),
        ensures
            r == self@.tables_fit(),
    {
        match &self.flow.pacer {
            None => true,
            Some(p) => {
                let level: u128 = self.flow.bsys_now(Ghost(self.plan@));
                let n: u128 = 1 + self.plan.programs.len() as u128;
                if n > 8 {
                    assert(n * BSYS_PACKET_SCALED * p.rate > BSYS_SIZE_SCALED * p.rate) by (nonlinear_arith)
                        requires
                            n >= 9,
                            p.rate >= 1,
                            BSYS_PACKET_SCALED == 94_000,
                            BSYS_SIZE_SCALED == 768_000,
                    ;
                    false
                } else {
                    assert(n * BSYS_PACKET_SCALED * p.rate <= 752_000 * p.rate) by (nonlinear_arith)
                        requires
                            0 <= n <= 8,
                            p.rate >= 1,
                            BSYS_PACKET_SCALED == 94_000,
                    ;
                    level + n * BSYS_PACKET_SCALED * p.rate as u128 <= BSYS_SIZE_SCALED
                        * p.rate as u128
                }
            },
        }
    }

    /// Write the tables if they are due.
    fn maybe_repeat_psi(&mut self, pts: i64)
        requires
            old(self)@.wf(),
        ensures
            final(self)@ == old(self)@.tables_repeated(pts),
            final(self)@.wf(),
    {
        let interval: i64 = match self.psi_repetition_90k {
            Some(i) => i,
            None => {
                return;
            },
        };
        if interval <= 0 {
            return;
        }
        match self.last_psi_pts {
            None => {
                self.last_psi_pts = Some(pts);
            },
            Some(last) => {
                if pts as i128 - last as i128 >= interval as i128 && self.have_room() {
                    self.write_tables();
                    self.last_psi_pts = Some(pts);
                }
            },
        }
    }

    fn find_stream(&self, index: u32) -> (r: Option<usize>)
        ensures
            match r {
                Some(t) => track_for_index(self@.plan, index, 0) == Some(t as int) && t
                    < self.plan.tracks@.len(),
                None => track_for_index(self@.plan, index, 0) is None,
            },
    {
        let mut i: usize = 0;
        while i < self.plan.tracks.len()
            invariant
                i <= self.plan.tracks@.len(),
                track_for_index(self@.plan, index, i as int) == track_for_index(
                    self@.plan,
                    index,
                    0,
                ),
            decreases self.plan.tracks@.len() - i,
        {
            if self.plan.tracks[i].stream_index == index {
                return Some(i);
            }
            i += 1;
        }
        None
    }

    /// Write a frame.
    pub fn write_packet(&mut self, packet: &MuxPacket) -> (r: Result<(), MuxError>)
        requires
            old(self)@.wf(),
        ensures
            final(self)@ == old(self)@.packet_written(packet@).mux,
            answers(r, old(self)@.packet_written(packet@)),
            final(self)@.wf(),
    {
        if !self.header_written {
            return Err(MuxError::HeaderNotWritten);
        }
        let t: usize = match self.find_stream(packet.stream_index) {
            Some(t) => t,
            None => {
                return Err(MuxError::NoSuchStream { stream_index: packet.stream_index });
            },
        };
        if let Some(x) = packet.pts {
            self.maybe_repeat_psi(x);
        }
        if self.flow.is_anchored() && !self.plan.tracks[t].is_video && packet.pts.is_some() {
            let copy: MuxPacket = MuxPacket {
                stream_index: packet.stream_index,
                pts: packet.pts,
                dts: packet.dts,
                keyframe: packet.keyframe,
                data: vstd::slice::slice_to_vec(packet.data.as_slice()),
            };
            assert(copy@ =~= packet@);
            self.flow.hold(&self.plan, t, copy);
            let now: i128 = self.flow.time_now(&self.plan);
            return self.flow.flush_due(&self.plan, now);
        }
        self.flow.write_pes_packet(&self.plan, t, packet)
    }

    /// Write the end of the stream: every held frame, then the tables.
    pub fn write_trailer(&mut self) -> (r: Result<(), MuxError>)
        requires
            old(self)@.wf(),
        ensures
            final(self)@ == old(self)@.trailer_written().mux,
            answers(r, old(self)@.trailer_written()),
            final(self)@.wf(),
    {
        self.flow.release_held(&self.plan)?;
        self.write_tables();
        Ok(())
    }

    /// Ask for a splicing point after the next frame of a stream.
    pub fn signal_splice_after(&mut self, stream_index: u32, spec: SpliceSpec) -> (r: Result<
        (),
        MuxError,
    >)
        requires
            old(self)@.wf(),
        ensures
            final(self)@ == old(self)@.splice_armed(stream_index, spec).mux,
            answers(r, old(self)@.splice_armed(stream_index, spec)),
            final(self)@.wf(),
    {
        let t: usize = match self.find_stream(stream_index) {
            Some(t) => t,
            None => {
                return Err(MuxError::NoSuchStream { stream_index });
            },
        };
        if let Some(s) = spec.seamless {
            if s.splice_type > 0xF {
                return Err(MuxError::SpliceTypeTooWide);
            }
            if s.dts_next_au > 0x1_FFFF_FFFF {
                return Err(MuxError::DtsNextAuTooWide);
            }
            if !self.plan.tracks[t].is_video && s.splice_type != 0 {
                return Err(MuxError::SpliceTypeNotVideo);
            }
        }
        let post: u8 = if spec.post_splice_packets > 127 { 127 } else { spec.post_splice_packets };
        let mut flow: TrackFlow = self.flow.tracks[t];
        assert(self@.flow.tracks[t as int].wf());
        flow.splice = Some(SpliceSpec { seamless: spec.seamless, post_splice_packets: post });
        self.flow.tracks.set(t, flow);
        assert(self@.flow =~= old(self)@.splice_armed(stream_index, spec).mux.flow);
        Ok(())
    }

    /// Announce that what is written from now on in a program belongs to a new
    /// time base.
    pub fn signal_time_base_discontinuity(&mut self, program_number: u16) -> (r: Result<
        (),
        MuxError,
    >)
        requires
            old(self)@.wf(),
        ensures
            final(self)@ == old(self)@.discontinuity_armed(program_number).mux,
            answers(r, old(self)@.discontinuity_armed(program_number)),
            final(self)@.wf(),
    {
        let mut p: usize = 0;
        while p < self.plan.programs.len() && self.plan.programs[p].number != program_number
            invariant
                *self == *old(self),
                p <= self.plan.programs@.len(),
                program_for(self@.plan, program_number, p as int) == program_for(
                    self@.plan,
                    program_number,
                    0,
                ),
            decreases self.plan.programs@.len() - p,
        {
            p += 1;
        }
        if p >= self.plan.programs.len() {
            return Err(MuxError::NoSuchProgram { program_number });
        }
        self.flow.release_held(&self.plan)?;
        let ghost a = self@;
        self.flow.programs.set(p, ProgramFlow { last_pcr: None, discontinuity: true });
        let ghost before = self.flow@.pacer;
        if let Some(mut q) = self.flow.pacer.take() {
            let ghost q0 = q@;
            q.anchor = None;
            q.last_pcr.set(p, None);
            assert(q@.last_pcr =~= q0.last_pcr.update(p as int, None));
            self.flow.pacer = Some(q);
        }
        assert(self@.flow =~= a.base_broken(p as int).flow);
        Ok(())
    }
}

/// Nothing written yet.
fn fresh(plan: &Plan) -> (r: Flow)
    requires
        plan@.wf(),
    ensures
        r@ == fresh_flow(plan@),
        r@.wf(plan@),
{
    let mut tracks: Vec<TrackFlow> = Vec::new();
    let mut i: usize = 0;
    while i < plan.tracks.len()
        invariant
            i <= plan.tracks@.len(),
            tracks@.len() == i,
            forall|j: int|
                0 <= j < i ==> #[trigger] tracks@[j] == (TrackFlow {
                    cc: 0,
                    splice: None,
                    after_splice: None,
                }),
        decreases plan.tracks@.len() - i,
    {
        tracks.push(TrackFlow { cc: 0, splice: None, after_splice: None });
        i += 1;
    }
    let mut programs: Vec<ProgramFlow> = Vec::new();
    let mut pmt_cc: Vec<u8> = Vec::new();
    let mut i: usize = 0;
    while i < plan.programs.len()
        invariant
            i <= plan.programs@.len(),
            programs@.len() == i,
            pmt_cc@.len() == i,
            forall|j: int|
                0 <= j < i ==> #[trigger] programs@[j] == (ProgramFlow {
                    last_pcr: None,
                    discontinuity: false,
                }),
            forall|j: int| 0 <= j < i ==> #[trigger] pmt_cc@[j] == 0,
        decreases plan.programs@.len() - i,
    {
        programs.push(ProgramFlow { last_pcr: None, discontinuity: false });
        pmt_cc.push(0);
        i += 1;
    }
    let r: Flow = Flow {
        out: Vec::new(),
        drained: 0,
        tracks,
        programs,
        table_cc: TableCounters { pat: 0, sdt: 0, nit: 0, eit: 0 },
        pmt_cc,
        pacer: None,
    };
    assert(r@ =~= fresh_flow(plan@));
    r
}

/// Pacing at `rate` from byte position `pos` on.
fn pacing(plan: &Plan, rate: u64, pos: u128) -> (r: Pacer)
    ensures
        r@ == fresh_pacer(plan@, rate, pos as int),
        r@.wf(pos as int, plan@.programs.len(), plan@.tracks.len()),
{
    let mut last_pcr: Vec<Option<u128>> = Vec::new();
    let mut i: usize = 0;
    while i < plan.programs.len()
        invariant
            i <= plan.programs@.len(),
            last_pcr@.len() == i,
            forall|j: int| 0 <= j < i ==> #[trigger] last_pcr@[j] is None,
        decreases plan.programs@.len() - i,
    {
        last_pcr.push(None);
        i += 1;
    }
    let mut held: Vec<Vec<MuxPacket>> = Vec::new();
    let mut i: usize = 0;
    while i < plan.tracks.len()
        invariant
            i <= plan.tracks@.len(),
            held@.len() == i,
            forall|j: int| 0 <= j < i ==> (#[trigger] held@[j])@.len() == 0,
        decreases plan.tracks@.len() - i,
    {
        held.push(Vec::new());
        i += 1;
    }
    let r: Pacer = Pacer {
        rate: if rate == 0 { 1 } else { rate },
        anchor: None,
        last_pcr,
        tb: BTreeMap::new(),
        bsys: (0, pos),
        held,
    };
    proof {
        let want = fresh_pacer(plan@, rate, pos as int);
        assert(r@.last_pcr =~= want.last_pcr);
        assert(r@.tb =~= want.tb);
        assert forall|j: int| 0 <= j < r@.held.len() implies #[trigger] r@.held[j]
            == want.held[j] by {
            assert(r@.held[j] =~= Seq::empty());
        }
        assert(r@.held =~= want.held);
    }
    r
}

} // verus!
