//! What the multiplexer has written, and what it carries from packet to packet.
use std::collections::BTreeMap;
use vstd::prelude::*;

use crate::clock::PCR_MODULUS_27MHZ;
use crate::muxer::config::{MuxPacket, SpliceSpec};
use crate::muxer::packets::{null_packet, push_null};

verus! {

/// One stream, as laid out.
#[derive(Debug, Clone, Copy)]
pub struct TrackPlan {
    /// Index by which packets name the stream.
    pub stream_index: u32,
    /// PID of the stream.
    pub pid: u16,
    /// `stream_type`.
    pub stream_type: u8,
    /// `stream_id` of its PES packets.
    pub stream_id: u8,
    /// The stream is video.
    pub is_video: bool,
    /// Index of its program.
    pub program: usize,
    /// `component_tag`: 1, 2, … within the program.
    pub component_tag: u8,
    /// Language code of a stream that is not video.
    pub language: Option<(u8, u8, u8)>,
}

/// One program, as laid out.
#[derive(Debug, Clone, Copy)]
pub struct ProgramPlan {
    /// `program_number`.
    pub number: u16,
    /// PID of the PMT.
    pub pmt_pid: u16,
    /// PCR PID.
    pub pcr_pid: u16,
    /// Index of the first stream on the PCR PID.
    pub pcr_track: Option<usize>,
}

/// Whose continuity counter a table's packets carry.
#[derive(Debug, Clone, Copy, PartialEq, Eq)]
pub enum Slot {
    /// The PAT's.
    Pat,
    /// That of the PMT of a program.
    Pmt(usize),
    /// The SDT's.
    Sdt,
    /// The NIT's.
    Nit,
    /// The EIT's.
    Eit,
}

/// Continuity counters of the tables other than PMTs.
#[derive(Debug, Clone, Copy, PartialEq, Eq)]
pub struct TableCounters {
    pub pat: u8,
    pub sdt: u8,
    pub nit: u8,
    pub eit: u8,
}

/// One section to write, as laid out.
#[derive(Debug)]
pub struct Table {
    /// PID.
    pub pid: u16,
    /// Its continuity counter.
    pub slot: Slot,
    /// The section.
    pub section: Vec<u8>,
}

/// A section to write.
#[verifier::ext_equal]
pub struct TableView {
    pub pid: u16,
    pub slot: Slot,
    pub section: Seq<u8>,
}

impl View for Table {
    type V = TableView;

    open spec fn view(&self) -> TableView {
        TableView { pid: self.pid, slot: self.slot, section: self.section@ }
    }
}

/// The layout of a transport stream.
#[derive(Debug)]
pub struct Plan {
    /// The streams.
    pub tracks: Vec<TrackPlan>,
    /// The programs.
    pub programs: Vec<ProgramPlan>,
    /// The sections, in the order in which they are written.
    pub tables: Vec<Table>,
}

/// The layout of a transport stream.
#[verifier::ext_equal]
pub struct PlanView {
    pub tracks: Seq<TrackPlan>,
    pub programs: Seq<ProgramPlan>,
    pub tables: Seq<TableView>,
}

impl View for Plan {
    type V = PlanView;

    open spec fn view(&self) -> PlanView {
        PlanView {
            tracks: self.tracks@,
            programs: self.programs@,
            tables: self.tables@.map_values(|t: Table| t@),
        }
    }
}

impl PlanView {
    /// Every index is in range.
    pub open spec fn wf(self) -> bool {
        &&& forall|i: int|
            0 <= i < self.tracks.len() ==> (#[trigger] self.tracks[i]).program < self.programs.len()
                && crate::muxer::pes::is_mux_stream_id(self.tracks[i].stream_id)
        &&& forall|i: int|
            0 <= i < self.programs.len() ==> ((#[trigger] self.programs[i]).pcr_track matches Some(
                t,
            ) ==> t < self.tracks.len())
        &&& forall|i: int|
            0 <= i < self.tables.len() ==> self.has_slot((#[trigger] self.tables[i]).slot)
    }

    /// There is such a counter.
    pub open spec fn has_slot(self, slot: Slot) -> bool {
        slot matches Slot::Pmt(p) ==> p < self.programs.len()
    }

    /// PID `pid` is one of the system branch: PAT, CAT, or a PMT.
    pub open spec fn is_system(self, pid: u16) -> bool {
        pid <= 1 || exists|i: int|
            0 <= i < self.programs.len() && (#[trigger] self.programs[i]).pmt_pid == pid
    }
}

/// What a stream carries from packet to packet.
#[derive(Debug, Clone, Copy, PartialEq, Eq)]
pub struct TrackFlow {
    /// Continuity counter of the next packet.
    pub cc: u8,
    /// Splicing point after the next frame.
    pub splice: Option<SpliceSpec>,
    /// Next and last value of a countdown after a splicing point.
    pub after_splice: Option<(u8, u8)>,
}

impl TrackFlow {
    pub open spec fn wf(self) -> bool {
        &&& self.cc < 16
        &&& self.splice matches Some(s) ==> s.wf()
        &&& self.after_splice matches Some((next, total)) ==> 1 <= next <= total <= 127
    }
}

/// What a program carries from packet to packet.
#[derive(Debug, Clone, Copy, PartialEq, Eq)]
pub struct ProgramFlow {
    /// Last PCR base, on the unwrapped time line.
    pub last_pcr: Option<i64>,
    /// The next PCR starts a new time base.
    pub discontinuity: bool,
}

/// A held frame.
#[verifier::ext_equal]
pub struct PacketView {
    pub stream_index: u32,
    pub pts: Option<i64>,
    pub dts: Option<i64>,
    pub keyframe: bool,
    pub data: Seq<u8>,
}

impl View for MuxPacket {
    type V = PacketView;

    open spec fn view(&self) -> PacketView {
        PacketView {
            stream_index: self.stream_index,
            pts: self.pts,
            dts: self.dts,
            keyframe: self.keyframe,
            data: self.data@,
        }
    }
}

/// Constant-rate pacing. The byte position is the clock; buffer levels are kept
/// scaled so that a byte of a transport buffer counts `rate`, and one of the
/// system buffer `500 * rate`.
pub struct Pacer {
    /// Bits per second.
    pub rate: u64,
    /// Byte position and 27 MHz time to count from.
    pub anchor: Option<(u128, i128)>,
    /// Byte position of each program's last PCR.
    pub last_pcr: Vec<Option<u128>>,
    /// Level of each transport buffer, and the byte position it is of.
    pub tb: BTreeMap<u16, (u128, u128)>,
    /// Level of the system buffer, and the byte position it is of.
    pub bsys: (u128, u128),
    /// Held frames of each stream.
    pub held: Vec<Vec<MuxPacket>>,
}

/// Constant-rate pacing.
#[verifier::ext_equal]
pub struct PacerView {
    pub rate: int,
    pub anchor: Option<(int, int)>,
    pub last_pcr: Seq<Option<int>>,
    pub tb: Map<u16, (int, int)>,
    pub bsys: (int, int),
    pub held: Seq<Seq<PacketView>>,
}

/// A byte position that may be missing.
pub open spec fn position(x: Option<u128>) -> Option<int> {
    match x {
        Some(v) => Some(v as int),
        None => None,
    }
}

/// The packets of `v`.
pub open spec fn packets_of(v: Seq<MuxPacket>) -> Seq<PacketView> {
    v.map_values(|p: MuxPacket| p@)
}

impl View for Pacer {
    type V = PacerView;

    open spec fn view(&self) -> PacerView {
        PacerView {
            rate: self.rate as int,
            anchor: match self.anchor {
                Some((b, t)) => Some((b as int, t as int)),
                None => None,
            },
            last_pcr: self.last_pcr@.map_values(|x: Option<u128>| position(x)),
            tb: self.tb@.map_values(|x: (u128, u128)| (x.0 as int, x.1 as int)),
            bsys: (self.bsys.0 as int, self.bsys.1 as int),
            held: self.held@.map_values(|q: Vec<MuxPacket>| packets_of(q@)),
        }
    }
}

/// Size of a packet on the scale of a transport buffer is `188 * rate`, and the
/// buffer holds `512 * rate`.
pub const TB_SIZE: u128 = 512;

/// The system buffer holds 1536 bytes, on a scale of `500 * rate`.
pub const BSYS_SIZE_SCALED: u128 = 768_000;

/// A packet, on the scale of the system buffer.
pub const BSYS_PACKET_SCALED: u128 = 94_000;

/// Drain of the transport buffer of an audio stream, in bit/s.
pub const AUDIO_TB_RX: u128 = 2_000_000;

/// Drain of the transport buffer of the system branch, in bit/s.
pub const SYS_TB_RX: u128 = 1_000_000;

/// Key of the transport buffer that all PIDs of the system branch share; no PID.
pub const SYS_TB_KEY: u16 = 0x2000;

/// 27 MHz ticks of a bit per second: `8 * 27_000_000`.
pub const TICKS_PER_BYTE_RATE: i128 = 216_000_000;

/// Interval of PCRs on the byte clock: 40 ms.
pub const CBR_PCR_INTERVAL_27MHZ: i128 = 1_080_000;

/// The larger of `x` and 0.
pub open spec fn at_least_zero(x: int) -> int {
    if x > 0 { x } else { 0 }
}

impl PacerView {
    /// Drain of the system buffer per byte of the stream, on its scale:
    /// `max(rate / 500, 80_000)` bit/s.
    pub open spec fn bsys_drain(self) -> int {
        if self.rate > 40_000_000 { self.rate } else { 40_000_000 }
    }

    /// Everything is in range at byte position `pos`.
    pub open spec fn wf(self, pos: int, programs: nat, tracks: nat) -> bool {
        &&& 1 <= self.rate <= u64::MAX
        &&& self.anchor matches Some((b, t)) ==> 0 <= b <= pos && -0x1_0000_0000_0000_0000 <= t
            <= 0x1_0000_0000_0000_0000
        &&& self.last_pcr.len() == programs
        &&& forall|i: int|
            0 <= i < programs ==> ((#[trigger] self.last_pcr[i]) matches Some(b) ==> 0 <= b <= pos)
        &&& forall|k: u16|
            #[trigger] self.tb.contains_key(k) ==> {
                &&& 0 <= self.tb[k].0 <= TB_SIZE * self.rate
                &&& 0 <= self.tb[k].1 <= pos
            }
        &&& 0 <= self.bsys.0 <= BSYS_SIZE_SCALED * self.rate
        &&& 0 <= self.bsys.1 <= pos
        &&& self.held.len() == tracks
    }

    /// Time at byte position `b`.
    pub open spec fn time_at(self, b: int) -> int {
        match self.anchor {
            Some((ab, at)) => at + (b - ab) * TICKS_PER_BYTE_RATE / self.rate,
            None => 0,
        }
    }

    /// Level of transport buffer `key`, drained at `rx` up to byte position `b`.
    pub open spec fn tb_level(self, key: u16, rx: int, b: int) -> int {
        if self.tb.contains_key(key) {
            at_least_zero(self.tb[key].0 - rx * (b - self.tb[key].1))
        } else {
            0
        }
    }

    /// Level of the system buffer, drained up to byte position `b`.
    pub open spec fn bsys_level(self, b: int) -> int {
        at_least_zero(self.bsys.0 - self.bsys_drain() * (b - self.bsys.1))
    }
}

/// What has been written, and what is carried along.
pub struct Flow {
    /// Bytes written and not taken out yet.
    pub out: Vec<u8>,
    /// Bytes taken out.
    pub drained: u64,
    /// The streams.
    pub tracks: Vec<TrackFlow>,
    /// The programs.
    pub programs: Vec<ProgramFlow>,
    /// Continuity counters of the tables other than PMTs.
    pub table_cc: TableCounters,
    /// Continuity counters of the PMTs.
    pub pmt_cc: Vec<u8>,
    /// Constant-rate pacing.
    pub pacer: Option<Pacer>,
}

/// What has been written, and what is carried along.
#[verifier::ext_equal]
pub struct FlowView {
    pub out: Seq<u8>,
    pub drained: int,
    pub tracks: Seq<TrackFlow>,
    pub programs: Seq<ProgramFlow>,
    pub table_cc: TableCounters,
    pub pmt_cc: Seq<u8>,
    pub pacer: Option<PacerView>,
}

impl View for Flow {
    type V = FlowView;

    open spec fn view(&self) -> FlowView {
        FlowView {
            out: self.out@,
            drained: self.drained as int,
            tracks: self.tracks@,
            programs: self.programs@,
            table_cc: self.table_cc,
            pmt_cc: self.pmt_cc@,
            pacer: match self.pacer {
                Some(p) => Some(p@),
                None => None,
            },
        }
    }
}

impl FlowView {
    /// Byte position: everything ever written.
    pub open spec fn pos(self) -> int {
        self.drained + self.out.len()
    }

    /// Everything is in range for layout `plan`.
    pub open spec fn wf(self, plan: PlanView) -> bool {
        &&& self.drained >= 0
        &&& self.tracks.len() == plan.tracks.len()
        &&& self.programs.len() == plan.programs.len()
        &&& forall|i: int| 0 <= i < self.tracks.len() ==> (#[trigger] self.tracks[i]).wf()
        &&& self.table_cc.pat < 16 && self.table_cc.sdt < 16
        &&& self.table_cc.nit < 16 && self.table_cc.eit < 16
        &&& self.pmt_cc.len() == plan.programs.len()
        &&& forall|i: int| 0 <= i < self.pmt_cc.len() ==> #[trigger] self.pmt_cc[i] < 16
        &&& self.pacer matches Some(p) ==> p.wf(
            self.pos(),
            plan.programs.len(),
            plan.tracks.len(),
        )
    }

    /// Nothing but output, buffer levels and clocks differs: the counts of
    /// streams, programs and tables, the rate, the anchor and the held frames
    /// are those of `other`, and the output goes on from there.
    pub open spec fn follows(self, other: FlowView) -> bool {
        &&& self.drained == other.drained
        &&& self.out.len() >= other.out.len()
        &&& self.tracks.len() == other.tracks.len()
        &&& self.programs.len() == other.programs.len()
        &&& self.pmt_cc.len() == other.pmt_cc.len()
        &&& self.pacer is Some == other.pacer is Some
        &&& self.pacer matches Some(p) ==> p.rate == other.pacer->0.rate && p.anchor
            == other.pacer->0.anchor && p.held == other.pacer->0.held
    }

    /// The clock runs.
    pub open spec fn anchored(self) -> bool {
        self.pacer matches Some(p) && p.anchor is Some
    }

    /// Time now.
    pub open spec fn now(self) -> int {
        self.pacer->0.time_at(self.pos())
    }

    /// After one packet.
    pub open spec fn put(self, packet: Seq<u8>) -> FlowView {
        FlowView { out: self.out + packet, ..self }
    }

    /// With level `level` of transport buffer `key`.
    pub open spec fn with_tb(self, key: u16, level: int) -> FlowView {
        let p = self.pacer->0;
        FlowView {
            pacer: Some(PacerView { tb: p.tb.insert(key, (level, self.pos())), ..p }),
            ..self
        }
    }

    /// After null packets until transport buffer `key`, drained at `rx`, has room
    /// for a packet; the packet is accounted for.
    pub open spec fn tb_paced(self, key: u16, rx: int) -> FlowView
        decreases self.pacer->0.tb_level(key, rx, self.pos()),
    {
        if self.pacer is None || rx <= 0 {
            self
        } else {
            let p = self.pacer->0;
            let level = p.tb_level(key, rx, self.pos());
            if level + 188 * p.rate <= TB_SIZE * p.rate || level <= 0 {
                self.with_tb(key, level + 188 * p.rate)
            } else {
                proof {
                    lemma_null_drains_tb(self, key, rx);
                }
                self.with_tb(key, level).put(null_packet()).tb_paced(key, rx)
            }
        }
    }

    /// With level `level` of the system buffer.
    pub open spec fn with_bsys(self, level: int) -> FlowView {
        let p = self.pacer->0;
        FlowView { pacer: Some(PacerView { bsys: (level, self.pos()), ..p }), ..self }
    }

    /// After null packets until the system buffer has room for a packet; the
    /// packet is accounted for.
    pub open spec fn bsys_paced(self) -> FlowView
        decreases self.pacer->0.bsys_level(self.pos()),
    {
        if self.pacer is None {
            self
        } else {
            let p = self.pacer->0;
            let level = p.bsys_level(self.pos());
            if level + BSYS_PACKET_SCALED * p.rate <= BSYS_SIZE_SCALED * p.rate || level <= 0 {
                self.with_bsys(level + BSYS_PACKET_SCALED * p.rate)
            } else {
                proof {
                    lemma_null_drains_bsys(self);
                }
                self.with_bsys(level).put(null_packet()).bsys_paced()
            }
        }
    }

    /// The PCR of a packet written now: the time of the byte that holds the last
    /// bit of its base, ten bytes in.
    pub open spec fn pcr_now(self) -> (u64, u16) {
        let t = self.pacer->0.time_at(self.pos() + 10) % PCR_MODULUS_27MHZ as int;
        ((t / 300) as u64, (t % 300) as u16)
    }
}

/// A null packet drains the buffer.
pub proof fn lemma_null_drains_tb(f: FlowView, key: u16, rx: int)
    requires
        f.pacer is Some,
        rx > 0,
        f.pacer->0.tb_level(key, rx, f.pos()) > 0,
    ensures
        ({
            let level = f.pacer->0.tb_level(key, rx, f.pos());
            let g = f.with_tb(key, level).put(null_packet());
            &&& g.pos() == f.pos() + 188
            &&& g.pacer->0.tb_level(key, rx, g.pos()) == at_least_zero(level - 188 * rx)
            &&& 0 <= g.pacer->0.tb_level(key, rx, g.pos()) < level
        }),
{
    let level = f.pacer->0.tb_level(key, rx, f.pos());
    let g = f.with_tb(key, level).put(null_packet());
    assert(null_packet().len() == 188);
    assert(rx * (g.pos() - f.pos()) == 188 * rx) by (nonlinear_arith)
        requires
            g.pos() - f.pos() == 188,
    ;
}

/// A null packet drains the buffer.
pub proof fn lemma_null_drains_bsys(f: FlowView)
    requires
        f.pacer is Some,
        f.pacer->0.bsys_level(f.pos()) > 0,
    ensures
        ({
            let level = f.pacer->0.bsys_level(f.pos());
            let g = f.with_bsys(level).put(null_packet());
            &&& g.pos() == f.pos() + 188
            &&& 0 <= g.pacer->0.bsys_level(g.pos()) < level
        }),
{
    let level = f.pacer->0.bsys_level(f.pos());
    let g = f.with_bsys(level).put(null_packet());
    assert(null_packet().len() == 188);
    let d = f.pacer->0.bsys_drain();
    assert(d * (g.pos() - f.pos()) == 188 * d) by (nonlinear_arith)
        requires
            g.pos() - f.pos() == 188,
    ;
}

impl Flow {
    /// Byte position.
    pub(crate) fn position(&self) -> (r: u128)
        ensures
            r == self@.pos(),
            r <= 0x2_0000_0000_0000_0000,
    {
        self.drained as u128 + self.out.len() as u128
    }

    /// Append a null packet.
    pub(crate) fn emit_null(&mut self, plan: Ghost<PlanView>)
        requires
            old(self)@.wf(plan@),
        ensures
            final(self)@ == old(self)@.put(null_packet()),
            final(self)@.wf(plan@),
            final(self)@.pos() == old(self)@.pos() + 188,
            final(self)@.follows(old(self)@),
    {
        push_null(&mut self.out);
        assert(self@ =~= old(self)@.put(null_packet()));
    }

    /// Level of transport buffer `key` now.
    fn tb_now(&self, key: u16, rx: u128, plan: Ghost<PlanView>) -> (r: u128)
        requires
            self@.wf(plan@),
            self.pacer is Some,
            0 < rx <= AUDIO_TB_RX,
        ensures
            r == self@.pacer->0.tb_level(key, rx as int, self@.pos()),
            r <= TB_SIZE * self.pacer->0.rate,
    {
        let here: u128 = self.position();
        match &self.pacer {
            Some(p) => {
                assert(p@.tb.contains_key(key) == p.tb@.contains_key(key));
                match p.tb.get(&key) {
                    Some(entry) => {
                        assert(p@.tb[key] == (entry.0 as int, entry.1 as int));
                        let delta: u128 = here - entry.1;
                        assert(rx * delta <= 2_000_000 * 0x2_0000_0000_0000_0000) by (nonlinear_arith)
                            requires
                                0 < rx <= 2_000_000,
                                0 <= delta <= 0x2_0000_0000_0000_0000,
                        ;
                        let drain: u128 = rx * delta;
                        if entry.0 > drain {
                            entry.0 - drain
                        } else {
                            0
                        }
                    },
                    None => 0,
                }
            },
            None => 0,
        }
    }

    fn set_tb(&mut self, key: u16, level: u128, plan: Ghost<PlanView>)
        requires
            old(self)@.wf(plan@),
            old(self).pacer is Some,
            level <= TB_SIZE * old(self).pacer->0.rate,
        ensures
            final(self)@ == old(self)@.with_tb(key, level as int),
            final(self)@.wf(plan@),
            final(self)@.follows(old(self)@),
    {
        let here: u128 = self.position();
        let ghost before = self.pacer->0@.tb;
        if let Some(mut p) = self.pacer.take() {
            p.tb.insert(key, (level, here));
            assert(p@.tb =~= before.insert(key, (level as int, here as int)));
            self.pacer = Some(p);
        }
        assert(self@ =~= old(self)@.with_tb(key, level as int));
        assert(self@.pacer->0.wf(self@.pos(), plan@.programs.len(), plan@.tracks.len()));
    }

    /// Write null packets until transport buffer `key`, drained at `rx`, has room
    /// for a packet, and account for it.
    pub(crate) fn pace_tb(&mut self, key: u16, rx: u128, plan: Ghost<PlanView>)
        requires
            old(self)@.wf(plan@),
            0 < rx <= AUDIO_TB_RX,
        ensures
            final(self)@ == old(self)@.tb_paced(key, rx as int),
            final(self)@.wf(plan@),
            final(self)@.follows(old(self)@),
    {
        if self.pacer.is_none() {
            return;
        }
        let rate: u128 = match &self.pacer {
            Some(p) => p.rate as u128,
            None => 1,
        };
        let mut level: u128 = self.tb_now(key, rx, plan);
        while level + 188 * rate > TB_SIZE * rate
            invariant
                self@.wf(plan@),
                self.pacer is Some,
                self.pacer->0.rate == rate,
                1 <= rate <= u64::MAX,
                0 < rx <= AUDIO_TB_RX,
                level == self@.pacer->0.tb_level(key, rx as int, self@.pos()),
                level <= TB_SIZE * rate,
                self@.tb_paced(key, rx as int) == old(self)@.tb_paced(key, rx as int),
                self@.follows(old(self)@),
            decreases level,
        {
            proof {
                lemma_null_drains_tb(self@, key, rx as int);
            }
            self.set_tb(key, level, plan);
            self.emit_null(plan);
            level = self.tb_now(key, rx, plan);
        }
        self.set_tb(key, level + 188 * rate, plan);
    }

    /// Level of the system buffer now.
    pub(crate) fn bsys_now(&self, plan: Ghost<PlanView>) -> (r: u128)
        requires
            self@.wf(plan@),
            self.pacer is Some,
        ensures
            r == self@.pacer->0.bsys_level(self@.pos()),
            r <= BSYS_SIZE_SCALED * self.pacer->0.rate,
    {
        let here: u128 = self.position();
        match &self.pacer {
            Some(p) => {
                let drain: u128 = if p.rate > 40_000_000 { p.rate as u128 } else { 40_000_000 };
                let delta: u128 = here - p.bsys.1;
                if delta >= BSYS_SIZE_SCALED {
                    assert(drain * delta >= BSYS_SIZE_SCALED * p.rate) by (nonlinear_arith)
                        requires
                            drain >= p.rate,
                            p.rate >= 0,
                            delta >= 768_000,
                            BSYS_SIZE_SCALED == 768_000,
                    ;
                    0
                } else {
                    assert(0 <= drain * delta <= 768_000 * 0x1_0000_0000_0000_0000) by (nonlinear_arith)
                        requires
                            0 <= drain <= 0x1_0000_0000_0000_0000,
                            0 <= delta < 768_000,
                    ;
                    let out: u128 = drain * delta;
                    if p.bsys.0 > out {
                        p.bsys.0 - out
                    } else {
                        0
                    }
                }
            },
            None => 0,
        }
    }

    fn set_bsys(&mut self, level: u128, plan: Ghost<PlanView>)
        requires
            old(self)@.wf(plan@),
            old(self).pacer is Some,
            level <= BSYS_SIZE_SCALED * old(self).pacer->0.rate,
        ensures
            final(self)@ == old(self)@.with_bsys(level as int),
            final(self)@.wf(plan@),
            final(self)@.follows(old(self)@),
    {
        let here: u128 = self.position();
        if let Some(mut p) = self.pacer.take() {
            p.bsys = (level, here);
            self.pacer = Some(p);
        }
        assert(self@ =~= old(self)@.with_bsys(level as int));
        assert(self@.pacer->0.wf(self@.pos(), plan@.programs.len(), plan@.tracks.len()));
    }

    /// Write null packets until the system buffer has room for a packet, and
    /// account for it.
    pub(crate) fn pace_bsys(&mut self, plan: Ghost<PlanView>)
        requires
            old(self)@.wf(plan@),
        ensures
            final(self)@ == old(self)@.bsys_paced(),
            final(self)@.wf(plan@),
            final(self)@.follows(old(self)@),
    {
        if self.pacer.is_none() {
            return;
        }
        let rate: u128 = match &self.pacer {
            Some(p) => p.rate as u128,
            None => 1,
        };
        let mut level: u128 = self.bsys_now(plan);
        while level + BSYS_PACKET_SCALED * rate > BSYS_SIZE_SCALED * rate
            invariant
                self@.wf(plan@),
                self.pacer is Some,
                self.pacer->0.rate == rate,
                1 <= rate <= u64::MAX,
                level == self@.pacer->0.bsys_level(self@.pos()),
                level <= BSYS_SIZE_SCALED * rate,
                self@.bsys_paced() == old(self)@.bsys_paced(),
                self@.follows(old(self)@),
            decreases level,
        {
            proof {
                lemma_null_drains_bsys(self@);
            }
            self.set_bsys(level, plan);
            self.emit_null(plan);
            level = self.bsys_now(plan);
        }
        self.set_bsys(level + BSYS_PACKET_SCALED * rate, plan);
    }

    /// Time at byte position `b`; 0 before the clock runs.
    pub(crate) fn time_at(&self, b: u128, plan: Ghost<PlanView>) -> (r: i128)
        requires
            self@.wf(plan@),
            self@.anchored(),
            self@.pos() <= b <= 0x3_0000_0000_0000_0000,
        ensures
            r == self@.pacer->0.time_at(b as int),
            -0x1_0000_0000_0000_0000 <= r <= 0x1000_0000_0000_0000_0000_0000_0000,
    {
        match &self.pacer {
            Some(p) => match p.anchor {
                Some((ab, at)) => {
                    let delta: u128 = b - ab;
                    let ticks: u128 = delta * 216_000_000 / p.rate as u128;
                    assert(0 <= ticks <= delta * 216_000_000) by (nonlinear_arith)
                        requires
                            ticks == delta * 216_000_000 / p.rate as int,
                            p.rate >= 1,
                            delta >= 0,
                    ;
                    at + ticks as i128
                },
                None => 0,
            },
            None => 0,
        }
    }

    /// The PCR of a packet written now.
    pub(crate) fn pcr_fields(&self, plan: Ghost<PlanView>) -> (r: (u64, u16))
        requires
            self@.wf(plan@),
            self@.anchored(),
        ensures
            r == self@.pcr_now(),
            r.0 <= 0x1_FFFF_FFFF,
            r.1 < 300,
    {
        let t: i128 = self.time_at(self.position() + 10, plan);
        let m: i128 = 2_576_980_377_600;
        let shifted: u128 = (t + m * 0x1_0000_0000_0000) as u128;
        let wrapped: u64 = (shifted % m as u128) as u64;
        assert(wrapped == t as int % 2_576_980_377_600) by {
            assert((t as int + 2_576_980_377_600 * 0x1_0000_0000_0000) % 2_576_980_377_600
                == t as int % 2_576_980_377_600) by {
                vstd::arithmetic::div_mod::lemma_mod_multiples_vanish(
                    0x1_0000_0000_0000,
                    t as int,
                    2_576_980_377_600,
                );
            }
        }
        (wrapped / 300, (wrapped % 300) as u16)
    }
}

} // verus!
