use std::collections::VecDeque;

use oxideav_mpegts::clock::extend_near;
use oxideav_mpegts::muxer::mux::DEFAULT_PMT_PID;
use oxideav_mpegts::muxer::plan::FIRST_ES_PID;
use oxideav_mpegts::muxer::{
    MpegTsMuxConfig, MpegTsMuxer, MuxPacket, MuxStream, NetworkSpec, ProgramSpec, ServiceSpec,
};
use oxideav_mpegts::packet::{
    detect_packet_layout, AdaptationFieldSpec, TsPacket, TS_PACKET_LEN, TS_SYNC_BYTE,
};
use oxideav_mpegts::pes::{PesHeaderSpec, PesReassembler};
use oxideav_mpegts::tstd::{
    packet_pieces, pcr_samples, ArrivalClock, ByteClass, PesScanner, Route, TStdBranch, TStdConfig,
    TStdStreamModel, BSYS_SIZE, RSYS_MIN_BPS, RXSYS_BPS, TB_SIZE,
};
use oxideav_mpegts::validate::validate_ts;
use oxideav_mpegts::TsError;

// ---------------------------------------------------------------------------
// The fluid buffer model
// ---------------------------------------------------------------------------

/// Maximum delay of any byte through the T-STD buffers.
const MAX_TSTD_DELAY_SECONDS: f64 = 1.0;

/// Fluid-model comparison slack: one byte, and one microsecond.
const BYTE_EPS: f64 = 1.0;
const TIME_EPS: f64 = 1e-6;

/// One buffer-rule violation, with floating-point figures. At most one record per `(rule, PID)`
/// pair is kept (the first, with the worst figure updated in place);
/// [`TStdReport::violation_events`] counts every occurrence.
#[derive(Debug, Clone, PartialEq)]
enum TStdViolation {
    /// `TBn` (or `TBsys` for `pid == None`… reported with its PID
    /// here) exceeded its fixed 512-byte size.
    TbOverflow { pid: u16, peak_bytes: u64 },
    /// `TBn` stayed non-empty for more than one second (it
    /// must empty at least once every second).
    TbBusyOverOneSecond { pid: u16, seconds: f64 },
    /// `Bn` exceeded `BSn` (audio / system-data main buffer).
    MainOverflow {
        pid: u16,
        peak_bytes: u64,
        limit: usize,
    },
    /// An access unit was not completely present in `Bn` at its
    /// decode time — the stream delivers its bytes too late.
    MainUnderflow {
        pid: u16,
        decode_time: f64,
        missing_bytes: u64,
    },
    /// `MBn` exceeded `MBSn` (video multiplexing buffer, leak method).
    MbOverflow {
        pid: u16,
        peak_bytes: u64,
        limit: usize,
    },
    /// `MBn` stayed non-empty for more than one second.
    MbBusyOverOneSecond { pid: u16, seconds: f64 },
    /// An access unit was not completely present in `EBn` at its
    /// decode time (leak-method `EBn` underflow).
    EbUnderflow {
        pid: u16,
        decode_time: f64,
        missing_bytes: u64,
    },
    /// A byte spent more than one second in the T-STD buffers
    /// (`tdn(j) − t(i) > 1 s`).
    DelayOverOneSecond {
        pid: u16,
        decode_time: f64,
        delay_seconds: f64,
    },
    /// `Bsys` exceeded its fixed 1536-byte size.
    BsysOverflow { peak_bytes: u64 },
}

impl TStdViolation {
    /// `(discriminant, pid)` key for the once-per-rule-per-PID cap.
    fn key(&self) -> (u8, u16) {
        match self {
            TStdViolation::TbOverflow { pid, .. } => (0, *pid),
            TStdViolation::TbBusyOverOneSecond { pid, .. } => (1, *pid),
            TStdViolation::MainOverflow { pid, .. } => (2, *pid),
            TStdViolation::MainUnderflow { pid, .. } => (3, *pid),
            TStdViolation::MbOverflow { pid, .. } => (4, *pid),
            TStdViolation::MbBusyOverOneSecond { pid, .. } => (5, *pid),
            TStdViolation::EbUnderflow { pid, .. } => (6, *pid),
            TStdViolation::DelayOverOneSecond { pid, .. } => (7, *pid),
            TStdViolation::BsysOverflow { .. } => (8, 0),
        }
    }
}

/// Per-stream occupancy statistics, with floating-point figures.
#[derive(Debug, Clone, Default)]
struct TStdChainStats {
    /// The elementary PID (or the first system PID for the system
    /// chain).
    pub pid: u16,
    /// Peak `TBn` occupancy in bytes.
    pub peak_tb_bytes: u64,
    /// Peak downstream occupancy — `Bn` (main), `MBn` (video), or
    /// `Bsys` (system chain).
    pub peak_main_bytes: u64,
    /// Peak `EBn` occupancy (video chains only).
    pub peak_eb_bytes: u64,
    /// Access units removed (main / video chains).
    pub access_units: u64,
    /// Worst observed byte delay through the chain, in seconds.
    pub max_delay_seconds: f64,
}

/// The outcome of one [`analyze_tstd`] replay, with floating-point figures.
#[derive(Debug, Clone, Default)]
struct TStdReport {
    /// First violation per `(rule, PID)`, worst figure kept.
    pub violations: Vec<TStdViolation>,
    /// Total number of violating events (uncapped).
    pub violation_events: u64,
    /// Per-chain statistics (elementary streams, then the system
    /// chain when configured).
    pub chains: Vec<TStdChainStats>,
    /// PCR samples the arrival clock was reconstructed from.
    pub pcr_samples: usize,
    /// Modelled span in seconds (first to last byte arrival).
    pub modelled_seconds: f64,
}

impl TStdReport {
    /// `true` when the stream satisfied every modelled buffer
    /// condition.
    fn is_conformant(&self) -> bool {
        self.violations.is_empty()
    }

    fn record(&mut self, v: TStdViolation) {
        self.violation_events += 1;
        let key = v.key();
        for existing in &mut self.violations {
            if existing.key() == key {
                // Keep the worst figure for the rule.
                merge_worse(existing, &v);
                return;
            }
        }
        self.violations.push(v);
    }
}

/// Update `a` in place with the worse of the two figures, which may be
/// floating point.
fn merge_worse(a: &mut TStdViolation, b: &TStdViolation) {
    match (a, b) {
        (TStdViolation::TbOverflow { peak_bytes: pa, .. }, TStdViolation::TbOverflow { peak_bytes: pb, .. })
        | (TStdViolation::MainOverflow { peak_bytes: pa, .. }, TStdViolation::MainOverflow { peak_bytes: pb, .. })
        | (TStdViolation::MbOverflow { peak_bytes: pa, .. }, TStdViolation::MbOverflow { peak_bytes: pb, .. })
        | (TStdViolation::BsysOverflow { peak_bytes: pa }, TStdViolation::BsysOverflow { peak_bytes: pb }) => {
            *pa = (*pa).max(*pb)
        }
        (TStdViolation::TbBusyOverOneSecond { seconds: sa, .. }, TStdViolation::TbBusyOverOneSecond { seconds: sb, .. })
        | (TStdViolation::MbBusyOverOneSecond { seconds: sa, .. }, TStdViolation::MbBusyOverOneSecond { seconds: sb, .. }) => {
            *sa = sa.max(*sb)
        }
        (
            TStdViolation::MainUnderflow {
                missing_bytes: ma, ..
            },
            TStdViolation::MainUnderflow {
                missing_bytes: mb, ..
            },
        )
        | (
            TStdViolation::EbUnderflow {
                missing_bytes: ma, ..
            },
            TStdViolation::EbUnderflow {
                missing_bytes: mb, ..
            },
        ) => *ma = (*ma).max(*mb),
        (
            TStdViolation::DelayOverOneSecond {
                delay_seconds: da, ..
            },
            TStdViolation::DelayOverOneSecond {
                delay_seconds: db, ..
            },
        ) => *da = da.max(*db),
        _ => {}
    }
}

/// The arrival schedule with times in seconds; the times are floating point.
struct TimedClock {
    clock: ArrivalClock,
    /// Arrival time of the first byte of each stretch.
    starts: Vec<f64>,
}

impl TimedClock {
    fn new(clock: ArrivalClock) -> Self {
        let mut starts = Vec::new();
        let mut time = 0.0f64;
        for iv in clock.intervals() {
            starts.push(time);
            time += if iv.rebased {
                iv.bytes as f64 / rate_of(iv.rate_bytes, iv.rate_ticks)
            } else {
                iv.rate_ticks as f64 / 27_000_000.0
            };
        }
        TimedClock { clock, starts }
    }

    /// Arrival time of byte `pos`.
    fn time_of(&mut self, pos: u64) -> f64 {
        let i = self.clock.interval_at(pos);
        let iv = self.clock.intervals()[i];
        let rate = rate_of(iv.rate_bytes, iv.rate_ticks);
        if pos >= iv.start_pos {
            self.starts[i] + (pos - iv.start_pos) as f64 / rate
        } else {
            self.starts[i] - (iv.start_pos - pos) as f64 / rate
        }
    }

    /// A decode timestamp seen at byte `pos`, on the arrival clock.
    fn decode_time_at(&mut self, pos: u64, raw_90k: u64) -> f64 {
        let i = self.clock.interval_at(pos);
        let iv = self.clock.intervals()[i];
        let ext = extend_near(raw_90k, iv.pcr / 300);
        ext as f64 / 90_000.0 + (self.starts[i] - iv.pcr as f64 / 27_000_000.0)
    }

    /// Transport rate in bytes per second at byte `pos`.
    fn rate_at(&mut self, pos: u64) -> f64 {
        let i = self.clock.interval_at(pos);
        let iv = self.clock.intervals()[i];
        rate_of(iv.rate_bytes, iv.rate_ticks)
    }
}

/// Bytes per second, in floating point.
fn rate_of(bytes: u64, ticks: u64) -> f64 {
    bytes as f64 / (ticks as f64 / 27_000_000.0)
}

// ---------------------------------------------------------------------------
// Fluid FIFO with a constant drain — the TB stage.
// ---------------------------------------------------------------------------

/// Floating point throughout: constant-drain fluid FIFO (`TBn` / `TBsys`). Tracks the virtual
/// completion clock, peak backlog, and busy stretches.
#[derive(Debug)]
struct FluidFifo {
    /// Drain rate in bytes/second.
    rate: f64,
    /// Time at which everything queued so far will have exited.
    virtual_done: f64,
    /// Start of the current busy stretch, or `None` while empty.
    busy_since: Option<f64>,
    /// Peak backlog in bytes.
    peak: f64,
    /// Longest busy stretch in seconds.
    longest_busy: f64,
}

impl FluidFifo {
    fn new(rate_bps: u64) -> Self {
        Self {
            rate: rate_bps as f64 / 8.0,
            virtual_done: f64::NEG_INFINITY,
            busy_since: None,
            peak: 0.0,
            longest_busy: 0.0,
        }
    }

    /// Feed `bytes` arriving linearly over `[t0, t1]`; returns the
    /// `(exit_start, exit_end)` window at which they leave.
    fn push(&mut self, t0: f64, t1: f64, bytes: f64) -> (f64, f64) {
        if bytes <= 0.0 {
            let t = self.virtual_done.max(t0);
            return (t, t);
        }
        // Busy-stretch bookkeeping: an idle gap before this run closes
        // the previous stretch.
        match self.busy_since {
            Some(since) => {
                if self.virtual_done < t0 - TIME_EPS {
                    self.longest_busy = self.longest_busy.max(self.virtual_done - since);
                    self.busy_since = Some(t0);
                }
            }
            None => self.busy_since = Some(t0),
        }
        let start = self.virtual_done.max(t0);
        let end = t1.max(start + bytes / self.rate);
        // Peak backlog occurs at the arrival end of the run.
        let backlog_at_t1 = (end - t1) * self.rate;
        self.peak = self.peak.max(backlog_at_t1);
        self.virtual_done = end;
        if let Some(since) = self.busy_since {
            self.longest_busy = self.longest_busy.max(end - since);
        }
        (start, end)
    }
}

// ---------------------------------------------------------------------------
// Downstream branches.
// ---------------------------------------------------------------------------

/// A byte run delivered into a downstream buffer over `[t0, t1]`.
#[derive(Debug, Clone, Copy)]
struct Run {
    t0: f64,
    t1: f64,
    bytes: f64,
}

/// Floating point throughout: piecewise-linear cumulative-arrival tracker: answers "how many
/// bytes arrived by time t" for monotone queries, dropping spent runs.
#[derive(Debug, Default)]
struct CumulativeIn {
    runs: VecDeque<Run>,
    /// Bytes of runs fully before the query frontier.
    settled: f64,
}

impl CumulativeIn {
    fn push(&mut self, t0: f64, t1: f64, bytes: f64) {
        if bytes > 0.0 {
            self.runs.push_back(Run { t0, t1, bytes });
        }
    }

    /// Cumulative bytes arrived by `t`. Queries must be monotone.
    fn arrived_by(&mut self, t: f64) -> f64 {
        while let Some(front) = self.runs.front() {
            if front.t1 <= t {
                self.settled += front.bytes;
                self.runs.pop_front();
            } else {
                break;
            }
        }
        let mut total = self.settled;
        for run in &self.runs {
            if run.t0 >= t {
                break;
            }
            let span = run.t1 - run.t0;
            let frac = if span <= 0.0 {
                1.0
            } else {
                ((t - run.t0) / span).clamp(0.0, 1.0)
            };
            total += run.bytes * frac;
        }
        total
    }

    /// Cumulative bytes once every queued run has fully arrived.
    fn final_total(&self) -> f64 {
        self.settled + self.runs.iter().map(|r| r.bytes).sum::<f64>()
    }

    /// Arrival-completion time of the `target`-th cumulative byte, or
    /// `None` when not yet queued.
    fn time_of_cumulative(&self, target: f64) -> Option<f64> {
        let mut acc = self.settled;
        if target <= acc {
            // Already settled — the exact instant is forgotten; report
            // the earliest still-tracked time.
            return Some(self.runs.front().map_or(f64::NEG_INFINITY, |r| r.t0));
        }
        for run in &self.runs {
            if target <= acc + run.bytes {
                let frac = (target - acc) / run.bytes;
                return Some(run.t0 + (run.t1 - run.t0) * frac);
            }
            acc += run.bytes;
        }
        None
    }
}

/// One pending access-unit removal.
#[derive(Debug, Clone, Copy)]
struct AccessUnit {
    /// Decode time on the arrival clock.
    decode_time: f64,
    /// Bytes removed from the branch's main buffer (PES header +
    /// payload for `Bn`; payload only for `EBn`).
    bytes: f64,
    /// T-STD input arrival time of the unit's first byte (drives the
    /// one-second delay bound).
    first_input_time: f64,
}

/// Floating point throughout: audio / system-data main buffer `Bn`.
#[derive(Debug)]
struct MainBranch {
    buffer_size: usize,
    inflow: CumulativeIn,
    removed: f64,
    required: f64,
    pending: VecDeque<AccessUnit>,
    peak: f64,
}

impl MainBranch {
    fn new(buffer_size: usize) -> Self {
        Self {
            buffer_size,
            inflow: CumulativeIn::default(),
            removed: 0.0,
            required: 0.0,
            pending: VecDeque::new(),
            peak: 0.0,
        }
    }

    /// Process every pending removal with `decode_time ≤ frontier`.
    fn drain(
        &mut self,
        frontier: f64,
        pid: u16,
        report: &mut TStdReport,
        stats: &mut TStdChainStats,
    ) {
        while let Some(au) = self.pending.front().copied() {
            if au.decode_time > frontier {
                break;
            }
            self.pending.pop_front();
            let arrived = self.inflow.arrived_by(au.decode_time);
            let fullness = arrived - self.removed;
            self.peak = self.peak.max(fullness);
            if fullness > self.buffer_size as f64 + BYTE_EPS {
                report.record(TStdViolation::MainOverflow {
                    pid,
                    peak_bytes: fullness as u64,
                    limit: self.buffer_size,
                });
            }
            self.required += au.bytes;
            if arrived + BYTE_EPS < self.required {
                report.record(TStdViolation::MainUnderflow {
                    pid,
                    decode_time: au.decode_time,
                    missing_bytes: (self.required - arrived) as u64,
                });
            }
            let delay = au.decode_time - au.first_input_time;
            stats.max_delay_seconds = stats.max_delay_seconds.max(delay);
            if delay > MAX_TSTD_DELAY_SECONDS + TIME_EPS {
                report.record(TStdViolation::DelayOverOneSecond {
                    pid,
                    decode_time: au.decode_time,
                    delay_seconds: delay,
                });
            }
            self.removed = self.required.min(arrived);
            stats.access_units += 1;
        }
    }

    /// End-of-stream: run every remaining removal, then check the
    /// final fullness peak.
    fn finish(&mut self, pid: u16, report: &mut TStdReport, stats: &mut TStdChainStats) {
        self.drain(f64::INFINITY, pid, report, stats);
        let fullness = self.inflow.final_total() - self.removed;
        self.peak = self.peak.max(fullness);
        if fullness > self.buffer_size as f64 + BYTE_EPS {
            report.record(TStdViolation::MainOverflow {
                pid,
                peak_bytes: fullness as u64,
                limit: self.buffer_size,
            });
        }
        stats.peak_main_bytes = self.peak as u64;
    }
}

/// Floating point throughout: video `MBn → EBn` chain (leak method).
#[derive(Debug)]
struct VideoBranch {
    /// Leak rate `Rbxn` in bytes/second.
    rbx: f64,
    mb_size: usize,
    eb_size: usize,
    /// Runs delivered into `MBn` (TB exit windows), with their class.
    mb_in: CumulativeIn,
    /// Header bytes among the MB inflow, cumulative, keyed by the
    /// same ordering: `(cum_in_threshold, header_bytes)` — when the
    /// transfer clock passes `cum_in_threshold` bytes, `header_bytes`
    /// of them were headers (discarded, not entering `EBn`).
    header_marks: VecDeque<(f64, f64)>,
    /// Cumulative bytes queued into `MBn` so far (arrival order).
    queued: f64,
    /// Cumulative bytes transferred out of `MBn` (headers + payload).
    transferred: f64,
    /// Cumulative payload bytes into `EBn`.
    eb_in: f64,
    /// Cumulative payload bytes removed from `EBn`.
    eb_removed: f64,
    eb_required: f64,
    /// Transfer clock — the leak has caught up with the queue until
    /// this time.
    proc_time: f64,
    pending: VecDeque<AccessUnit>,
    mb_peak: f64,
    eb_peak: f64,
    mb_busy_since: Option<f64>,
    mb_longest_busy: f64,
}

impl VideoBranch {
    fn new(rbx_bps: u64, mb_size: usize, eb_size: usize) -> Self {
        Self {
            rbx: rbx_bps as f64 / 8.0,
            mb_size,
            eb_size,
            mb_in: CumulativeIn::default(),
            header_marks: VecDeque::new(),
            queued: 0.0,
            transferred: 0.0,
            eb_in: 0.0,
            eb_removed: 0.0,
            eb_required: 0.0,
            proc_time: f64::NEG_INFINITY,
            pending: VecDeque::new(),
            mb_peak: 0.0,
            eb_peak: 0.0,
            mb_busy_since: None,
            mb_longest_busy: 0.0,
        }
    }

    /// Queue a run into `MBn`. `header` marks PES header bytes, which
    /// are discarded at transfer time instead of entering `EBn`
    /// (header bytes preceding a transferred payload byte
    /// are removed instantaneously — the fluid model lets them ride
    /// the leak, a sub-millisecond approximation at `Rbx`).
    fn push(&mut self, t0: f64, t1: f64, bytes: f64, header: bool) {
        if bytes <= 0.0 {
            return;
        }
        self.mb_in.push(t0, t1, bytes);
        self.queued += bytes;
        if header {
            self.header_marks.push_back((self.queued, bytes));
        }
    }

    /// Advance the leak up to `frontier`, interleaving EB removals.
    fn advance(
        &mut self,
        frontier: f64,
        pid: u16,
        report: &mut TStdReport,
        stats: &mut TStdChainStats,
    ) {
        loop {
            let next_decode = self.pending.front().map(|au| au.decode_time);
            let step_to = match next_decode {
                Some(td) if td <= frontier => td,
                _ => frontier,
            };
            self.leak_until(step_to, pid, report);
            match next_decode {
                Some(td) if td <= frontier => {
                    let au = self.pending.pop_front().expect("peeked");
                    self.eb_required += au.bytes;
                    if self.eb_in + BYTE_EPS < self.eb_required {
                        report.record(TStdViolation::EbUnderflow {
                            pid,
                            decode_time: td,
                            missing_bytes: (self.eb_required - self.eb_in) as u64,
                        });
                    }
                    self.eb_removed = self.eb_required.min(self.eb_in);
                    let delay = td - au.first_input_time;
                    stats.max_delay_seconds = stats.max_delay_seconds.max(delay);
                    if delay > MAX_TSTD_DELAY_SECONDS + TIME_EPS {
                        report.record(TStdViolation::DelayOverOneSecond {
                            pid,
                            decode_time: td,
                            delay_seconds: delay,
                        });
                    }
                    stats.access_units += 1;
                }
                _ => break,
            }
        }
    }

    /// Run the `MBn → EBn` leak from `proc_time` to `t`, honouring
    /// `EBn`-full back-pressure ("If EBn is full, data are
    /// not removed from MBn").
    fn leak_until(&mut self, t: f64, pid: u16, report: &mut TStdReport) {
        if self.proc_time == f64::NEG_INFINITY {
            self.proc_time = t;
            return;
        }
        while self.proc_time < t - TIME_EPS {
            let now = self.proc_time;
            let available = self.mb_in.arrived_by(now) - self.transferred;
            let eb_fullness = self.eb_in - self.eb_removed;
            let eb_room = self.eb_size as f64 - eb_fullness;
            // MB fullness peaks whenever the leak stalls or lags.
            let mb_fullness = self.mb_in.arrived_by(now) - self.transferred;
            self.mb_peak = self.mb_peak.max(mb_fullness);
            // Busy-stretch bookkeeping.
            if mb_fullness > BYTE_EPS {
                if self.mb_busy_since.is_none() {
                    self.mb_busy_since = Some(now);
                }
            } else if let Some(since) = self.mb_busy_since.take() {
                self.mb_longest_busy = self.mb_longest_busy.max(now - since);
            }
            if eb_room <= BYTE_EPS {
                // Stalled until the next removal (handled by the
                // caller); everything arriving meanwhile queues in MB.
                let end_fullness = self.mb_in.arrived_by(t) - self.transferred;
                self.mb_peak = self.mb_peak.max(end_fullness);
                if self.mb_busy_since.is_none() && end_fullness > BYTE_EPS {
                    self.mb_busy_since = Some(now);
                }
                self.proc_time = t;
                break;
            }
            if available <= BYTE_EPS {
                // Leak is keeping pace with arrivals: it transfers
                // whatever arrives until `t` (arrival rate ≤ Rbx), or
                // as much as fits in EB.
                let arriving = self.mb_in.arrived_by(t) - self.transferred - available;
                let take = arriving.min(eb_room.max(0.0));
                self.transfer(take.max(0.0));
                if take + BYTE_EPS < arriving {
                    // EB filled mid-stretch; find the fill time and
                    // continue stalled from there.
                    let target = self.transferred; // after transfer()
                    if let Some(tt) = self.mb_in.time_of_cumulative(target) {
                        self.proc_time = tt.max(now);
                        continue;
                    }
                }
                self.proc_time = t;
                break;
            }
            // Backlogged: transfer at Rbx until t, backlog exhausted,
            // or EB full.
            let span = t - now;
            let by_rate = self.rbx * span;
            let take = by_rate.min(available).min(eb_room);
            self.transfer(take);
            let dt = take / self.rbx;
            self.proc_time = now + dt.max(TIME_EPS);
        }
        let mb_fullness = self.mb_in.arrived_by(t) - self.transferred;
        self.mb_peak = self.mb_peak.max(mb_fullness);
        if mb_fullness > self.mb_size as f64 + BYTE_EPS {
            report.record(TStdViolation::MbOverflow {
                pid,
                peak_bytes: mb_fullness as u64,
                limit: self.mb_size,
            });
        }
        if let Some(since) = self.mb_busy_since {
            self.mb_longest_busy = self.mb_longest_busy.max(t - since);
        }
        self.proc_time = self.proc_time.max(t);
    }

    /// Move `bytes` out of `MBn`, splitting them into discarded
    /// header bytes and `EBn` payload per the queued marks.
    fn transfer(&mut self, bytes: f64) {
        if bytes <= 0.0 {
            return;
        }
        let start = self.transferred;
        let end = start + bytes;
        let mut header_bytes = 0.0;
        while let Some(&(threshold, hbytes)) = self.header_marks.front() {
            if threshold - hbytes >= end {
                break;
            }
            // Portion of this header run inside [start, end].
            let run_start = threshold - hbytes;
            let overlap = (end.min(threshold) - start.max(run_start)).max(0.0);
            header_bytes += overlap;
            if threshold <= end {
                self.header_marks.pop_front();
            } else {
                break;
            }
        }
        self.transferred = end;
        self.eb_in += bytes - header_bytes;
        let eb_fullness = self.eb_in - self.eb_removed;
        self.eb_peak = self.eb_peak.max(eb_fullness);
    }

    fn finish(&mut self, pid: u16, report: &mut TStdReport, stats: &mut TStdChainStats) {
        // Let the leak run long enough to move everything queued.
        let drain_time = self.proc_time.max(0.0) + self.queued / self.rbx + 2.0;
        self.advance(drain_time, pid, report, stats);
        if self.mb_longest_busy > MAX_TSTD_DELAY_SECONDS + TIME_EPS {
            report.record(TStdViolation::MbBusyOverOneSecond {
                pid,
                seconds: self.mb_longest_busy,
            });
        }
        stats.peak_main_bytes = self.mb_peak as u64;
        stats.peak_eb_bytes = self.eb_peak as u64;
    }
}

/// Floating point throughout: system-data branch `TBsys → Bsys`, continuous `Rsys` drain
/// overflow check only.
#[derive(Debug)]
struct SysBranch {
    fullness: f64,
    last_time: f64,
    peak: f64,
}

impl SysBranch {
    fn new() -> Self {
        Self {
            fullness: 0.0,
            last_time: f64::NEG_INFINITY,
            peak: 0.0,
        }
    }

    /// Feed a run into `Bsys`; `rsys` is the drain rate (bytes/s)
    /// applicable around this run's time.
    fn push(&mut self, t0: f64, t1: f64, bytes: f64, rsys: f64, report: &mut TStdReport) {
        if self.last_time == f64::NEG_INFINITY {
            self.last_time = t0;
        }
        // Drain the idle gap.
        let gap = (t0 - self.last_time).max(0.0);
        self.fullness = (self.fullness - rsys * gap).max(0.0);
        // Net fill over the run window; the fluid net-fill may
        // under-account a mid-run peak by at most `rsys × span`,
        // which is a handful of bytes at `Rsys`.
        let span = (t1 - t0).max(0.0);
        self.fullness = (self.fullness + bytes - rsys * span).max(0.0);
        self.peak = self.peak.max(self.fullness);
        if self.fullness > BSYS_SIZE as f64 + BYTE_EPS {
            report.record(TStdViolation::BsysOverflow {
                peak_bytes: self.fullness as u64,
            });
        }
        self.last_time = t1;
    }
}

/// One modelled elementary chain.
struct Chain {
    pid: u16,
    tb: FluidFifo,
    model: TStdBranch,
    branch: ChainBranch,
    scanner: PesScanner,
    /// The open (still-arriving) access unit.
    open_au: Option<OpenAu>,
    stats: TStdChainStats,
}

enum ChainBranch {
    Main(MainBranch),
    Video(VideoBranch),
}

#[derive(Debug, Clone, Copy)]
struct OpenAu {
    decode_time: f64,
    first_input_time: f64,
    /// Accumulated bytes in the branch's removal metric.
    bytes: f64,
}

impl Chain {
    /// Close the open AU and queue its removal.
    fn close_au(&mut self) {
        if let Some(au) = self.open_au.take() {
            let unit = AccessUnit {
                decode_time: au.decode_time,
                bytes: au.bytes,
                first_input_time: au.first_input_time,
            };
            match &mut self.branch {
                ChainBranch::Main(b) => b.pending.push_back(unit),
                ChainBranch::Video(b) => b.pending.push_back(unit),
            }
        }
    }
}

/// Replay `bytes` (a whole transport stream in any physical framing)
/// through the T-STD model for one program; the model computes in floating
/// point.
///
/// Errors with [`TsError::Unsupported`] when no packet layout or too
/// few PCRs are found.
fn analyze_tstd(bytes: &[u8], config: &TStdConfig) -> Result<TStdReport, TsError> {
    let layout = detect_packet_layout(bytes)
        .ok_or(TsError::Unsupported("T-STD model: no TS packet layout"))?;
    let samples = pcr_samples(bytes, layout, config.pcr_pid);
    let mut clock = TimedClock::new(ArrivalClock::build(&samples)?);

    let mut report = TStdReport {
        pcr_samples: samples.len(),
        ..Default::default()
    };

    let mut chains: Vec<Chain> = config
        .streams
        .iter()
        .map(|(pid, model)| Chain {
            pid: *pid,
            tb: FluidFifo::new(model.rx_bps),
            model: model.branch,
            branch: match model.branch {
                TStdBranch::Main { buffer_size } => ChainBranch::Main(MainBranch::new(buffer_size)),
                TStdBranch::Video {
                    rbx_bps,
                    mb_size,
                    eb_size,
                } => ChainBranch::Video(VideoBranch::new(rbx_bps, mb_size, eb_size)),
            },
            scanner: PesScanner::default(),
            open_au: None,
            stats: TStdChainStats {
                pid: *pid,
                ..Default::default()
            },
        })
        .collect();
    let mut tbsys = if config.system_pids.is_empty() {
        None
    } else {
        Some((FluidFifo::new(RXSYS_BPS), SysBranch::new()))
    };

    let mut first_time = f64::INFINITY;
    let mut last_time = f64::NEG_INFINITY;
    for (i, chunk) in bytes.chunks_exact(layout.packet_size()).enumerate() {
        let logical_pos = (i * TS_PACKET_LEN) as u64;
        let Ok(pkt) = TsPacket::parse(layout.window(chunk)) else {
            continue;
        };
        let t0 = clock.time_of(logical_pos);
        let t1 = clock.time_of(logical_pos + TS_PACKET_LEN as u64);
        first_time = first_time.min(t0);
        last_time = last_time.max(t1);

        match config.route(pkt.pid) {
            Route::Stream(n) => {
                let chain = &mut chains[n];
                match &mut chain.branch {
                    ChainBranch::Main(b) => b.drain(t0, chain.pid, &mut report, &mut chain.stats),
                    ChainBranch::Video(b) => {
                        b.advance(t0, chain.pid, &mut report, &mut chain.stats)
                    }
                }
                let span = t1 - t0;
                let frac = |byte: usize| t0 + span * byte as f64 / TS_PACKET_LEN as f64;
                for run in packet_pieces(&mut chain.scanner, &pkt) {
                    let (rt0, rt1) = (frac(run.offset), frac(run.offset + run.len));
                    let (es, ee) = chain.tb.push(rt0, rt1, run.len as f64);
                    if run.class == ByteClass::Overhead {
                        continue;
                    }
                    if let Some(ts) = run.decode_ts {
                        chain.close_au();
                        let td = clock.decode_time_at(logical_pos, ts);
                        chain.open_au = Some(OpenAu {
                            decode_time: td,
                            first_input_time: rt0,
                            bytes: 0.0,
                        });
                    }
                    let removed = run.removed_from(&chain.model) as f64;
                    if let Some(au) = &mut chain.open_au {
                        au.bytes += removed;
                    }
                    match &mut chain.branch {
                        ChainBranch::Main(b) => b.inflow.push(es, ee, run.len as f64),
                        ChainBranch::Video(b) => {
                            b.push(es, ee, run.len as f64, run.class == ByteClass::Header)
                        }
                    }
                }
            }
            Route::System => {
                if let Some((tb, bsys)) = &mut tbsys {
                    let (es, ee) = tb.push(t0, t1, TS_PACKET_LEN as f64);
                    let rate = clock.rate_at(logical_pos);
                    let rsys = ((rate * 8.0) / 500.0).max(RSYS_MIN_BPS as f64) / 8.0;
                    bsys.push(es, ee, TS_PACKET_LEN as f64, rsys, &mut report);
                }
            }
            Route::Nowhere => {}
        }
    }

    // ---- Wrap up: close AUs, run tail removals, collect checks. ----
    for chain in &mut chains {
        chain.close_au();
        let pid = chain.pid;
        if chain.tb.peak > TB_SIZE as f64 + BYTE_EPS {
            report.record(TStdViolation::TbOverflow {
                pid,
                peak_bytes: chain.tb.peak as u64,
            });
        }
        if chain.tb.longest_busy > MAX_TSTD_DELAY_SECONDS + TIME_EPS {
            report.record(TStdViolation::TbBusyOverOneSecond {
                pid,
                seconds: chain.tb.longest_busy,
            });
        }
        chain.stats.peak_tb_bytes = chain.tb.peak as u64;
        match &mut chain.branch {
            ChainBranch::Main(b) => b.finish(pid, &mut report, &mut chain.stats),
            ChainBranch::Video(b) => b.finish(pid, &mut report, &mut chain.stats),
        }
        report.chains.push(chain.stats.clone());
    }
    if let Some((tb, bsys)) = &tbsys {
        let pid = *config.system_pids.first().unwrap_or(&0);
        if tb.peak > TB_SIZE as f64 + BYTE_EPS {
            report.record(TStdViolation::TbOverflow {
                pid,
                peak_bytes: tb.peak as u64,
            });
        }
        if tb.longest_busy > MAX_TSTD_DELAY_SECONDS + TIME_EPS {
            report.record(TStdViolation::TbBusyOverOneSecond {
                pid,
                seconds: tb.longest_busy,
            });
        }
        report.chains.push(TStdChainStats {
            pid,
            peak_tb_bytes: tb.peak as u64,
            peak_main_bytes: bsys.peak as u64,
            ..Default::default()
        });
    }
    if last_time > first_time {
        report.modelled_seconds = last_time - first_time;
    }
    Ok(report)
}

// ---------------------------------------------------------------------------
// Streams made by hand
// ---------------------------------------------------------------------------

const PCR_PID: u16 = 0x0100;
const AUDIO_PID: u16 = 0x0101;
const VIDEO_PID: u16 = 0x0102;

/// 27 MHz ticks per 188-byte packet at exactly 1 Mbit/s.
const TICKS_1MBIT: u64 = 188 * 8 * 27; // 40608

/// Assemble one 188-byte TS packet.
fn ts_pkt(
    pid: u16,
    cc: u8,
    pusi: bool,
    af: Option<AdaptationFieldSpec>,
    payload: &[u8],
) -> [u8; TS_PACKET_LEN] {
    let mut pkt = [0xFFu8; TS_PACKET_LEN];
    pkt[0] = TS_SYNC_BYTE;
    pkt[1] = (if pusi { 0x40 } else { 0 }) | ((pid >> 8) as u8 & 0x1F);
    pkt[2] = pid as u8;
    let body = TS_PACKET_LEN - 4;
    match af {
        None if payload.len() == body => {
            pkt[3] = 0b0001_0000 | (cc & 0x0F);
            pkt[4..].copy_from_slice(payload);
        }
        None if payload.is_empty() => {
            // AF-only stuffing packet.
            pkt[3] = 0b0010_0000 | (cc & 0x0F);
            let af = AdaptationFieldSpec::default().encode(Some(body)).unwrap();
            pkt[4..4 + af.len()].copy_from_slice(&af);
        }
        None => {
            // Stuff via an empty AF so the payload lands at the tail.
            pkt[3] = 0b0011_0000 | (cc & 0x0F);
            let af = AdaptationFieldSpec::default()
                .encode(Some(body - payload.len()))
                .unwrap();
            pkt[4..4 + af.len()].copy_from_slice(&af);
            pkt[4 + af.len()..].copy_from_slice(payload);
        }
        Some(spec) if payload.is_empty() => {
            pkt[3] = 0b0010_0000 | (cc & 0x0F);
            let af = spec.encode(Some(body)).unwrap();
            pkt[4..4 + af.len()].copy_from_slice(&af);
        }
        Some(spec) => {
            pkt[3] = 0b0011_0000 | (cc & 0x0F);
            let af = spec.encode(Some(body - payload.len())).unwrap();
            pkt[4..4 + af.len()].copy_from_slice(&af);
            pkt[4 + af.len()..].copy_from_slice(payload);
        }
    }
    pkt
}

/// AF-only PCR carrier packet.
fn pcr_pkt(cc: u8, pcr_27mhz: u64) -> [u8; TS_PACKET_LEN] {
    let wrapped = pcr_27mhz % ((1u64 << 33) * 300);
    let base = wrapped / 300;
    let ext = (wrapped % 300) as u16;
    ts_pkt(
        PCR_PID,
        cc,
        false,
        Some(AdaptationFieldSpec::with_pcr(base, ext)),
        &[],
    )
}

/// Null (stuffing) packet on PID 0x1FFF.
fn null_pkt() -> [u8; TS_PACKET_LEN] {
    ts_pkt(0x1FFF, 0, false, None, &[0xFFu8; 184])
}

/// A bounded audio PES (stream_id 0xC0) with a PTS.
fn audio_pes(pts_90k: u64, payload_len: usize) -> Vec<u8> {
    PesHeaderSpec {
        stream_id: 0xC0,
        pts_90k: Some(pts_90k & 0x1_FFFF_FFFF),
        ..Default::default()
    }
    .encode(&vec![0xA5u8; payload_len])
    .unwrap()
}

/// An unbounded video PES (stream_id 0xE0) with PTS (+ optional DTS).
fn video_pes(pts_90k: u64, dts_90k: Option<u64>, payload_len: usize) -> Vec<u8> {
    PesHeaderSpec {
        stream_id: 0xE0,
        pts_90k: Some(pts_90k & 0x1_FFFF_FFFF),
        dts_90k: dts_90k.map(|d| d & 0x1_FFFF_FFFF),
        unbounded_length: true,
        ..Default::default()
    }
    .encode(&vec![0x3Cu8; payload_len])
    .unwrap()
}

/// Fragment PES bytes into TS packets on `pid` (PUSI on first).
fn pes_to_ts(pid: u16, cc: &mut u8, pes: &[u8]) -> Vec<[u8; TS_PACKET_LEN]> {
    let mut out = Vec::new();
    let mut first = true;
    for chunk in pes.chunks(TS_PACKET_LEN - 4) {
        out.push(ts_pkt(pid, *cc, first, None, chunk));
        *cc = (*cc + 1) & 0x0F;
        first = false;
    }
    out
}

fn audio_config() -> TStdConfig {
    TStdConfig {
        pcr_pid: PCR_PID,
        streams: vec![(AUDIO_PID, TStdStreamModel::audio())],
        system_pids: Vec::new(),
    }
}

/// Concatenate packets and bracket them between two PCRs so the
/// arrival clock sees `ticks_per_packet` per 188 bytes.
fn assemble(middle: &[[u8; TS_PACKET_LEN]], pcr0: u64, ticks_per_packet: u64) -> Vec<u8> {
    let mut out = Vec::new();
    out.extend_from_slice(&pcr_pkt(0, pcr0));
    for p in middle {
        out.extend_from_slice(p);
    }
    let total_packets = (middle.len() + 1) as u64;
    out.extend_from_slice(&pcr_pkt(1, pcr0 + total_packets * ticks_per_packet));
    out
}

/// A comfortably-paced audio stream at 1 Mbit/s is conformant.
#[test]
fn conformant_audio_stream_passes() {
    let pcr0 = 27_000_000; // t = 1 s on the PCR time base
                           // PTS ≈ 0.2 s after the head of the stream.
    let pts = pcr0 / 300 + 18_000;
    let mut cc = 0;
    let mut middle = pes_to_ts(AUDIO_PID, &mut cc, &audio_pes(pts, 350));
    for _ in 0..10 {
        middle.push(null_pkt());
    }
    let ts = assemble(&middle, pcr0, TICKS_1MBIT);
    let report = analyze_tstd(&ts, &audio_config()).expect("analyze");
    assert!(report.is_conformant(), "{:?}", report.violations);
    assert_eq!(report.pcr_samples, 2);
    let stats = &report.chains[0];
    assert_eq!(stats.pid, AUDIO_PID);
    assert_eq!(stats.access_units, 1);
    assert!(stats.peak_tb_bytes <= TB_SIZE as u64);
    assert!(stats.peak_main_bytes > 0);
    assert!((stats.max_delay_seconds - 0.2).abs() < 0.01);
}

/// Back-to-back audio packets at ~40 Mbit/s exceed the 512-byte
/// transport buffer (Rx = 2 Mbit/s cannot keep up).
#[test]
fn tb_overflow_flagged_at_high_transport_rate() {
    let pcr0 = 27_000_000;
    let pts = pcr0 / 300 + 9_000;
    let mut cc = 0;
    // 4 full TS packets of one PES → 752 back-to-back bytes.
    let middle = pes_to_ts(AUDIO_PID, &mut cc, &audio_pes(pts, 700));
    assert_eq!(middle.len(), 4);
    let ts = assemble(&middle, pcr0, TICKS_1MBIT / 40);
    let report = analyze_tstd(&ts, &audio_config()).expect("analyze");
    assert!(report
        .violations
        .iter()
        .any(|v| matches!(v, TStdViolation::TbOverflow { pid, .. } if *pid == AUDIO_PID)));
}

/// A PTS earlier than the data's arrival is a Bn underflow.
#[test]
fn main_underflow_flagged_for_late_data() {
    let pcr0 = 27_000_000;
    // Decode time 0.5 s BEFORE the PCR head.
    let pts = pcr0 / 300 - 45_000;
    let mut cc = 0;
    let middle = pes_to_ts(AUDIO_PID, &mut cc, &audio_pes(pts, 350));
    let ts = assemble(&middle, pcr0, TICKS_1MBIT);
    let report = analyze_tstd(&ts, &audio_config()).expect("analyze");
    assert!(report
        .violations
        .iter()
        .any(|v| matches!(v, TStdViolation::MainUnderflow { pid, .. } if *pid == AUDIO_PID)));
}

/// More buffered audio than BSn = 3584 bytes is a Bn overflow.
#[test]
fn main_overflow_flagged_for_hoarded_audio() {
    let pcr0 = 27_000_000;
    let mut cc = 0;
    let mut middle = Vec::new();
    // 8 PES × 700 bytes, all decoding 0.9 s after the head: the
    // 5.7 KB pile-up exceeds the 3584-byte main buffer.
    for _ in 0..8 {
        middle.extend(pes_to_ts(
            AUDIO_PID,
            &mut cc,
            &audio_pes(pcr0 / 300 + 81_000, 700),
        ));
    }
    let ts = assemble(&middle, pcr0, TICKS_1MBIT);
    let report = analyze_tstd(&ts, &audio_config()).expect("analyze");
    assert!(report
        .violations
        .iter()
        .any(|v| matches!(v, TStdViolation::MainOverflow { pid, .. } if *pid == AUDIO_PID)));
}

/// A decode time more than one second after arrival breaks the
/// delay bound.
#[test]
fn delay_over_one_second_flagged() {
    let pcr0 = 27_000_000;
    let pts = pcr0 / 300 + 2 * 90_000; // 2 s after the head
    let mut cc = 0;
    let middle = pes_to_ts(AUDIO_PID, &mut cc, &audio_pes(pts, 350));
    let ts = assemble(&middle, pcr0, TICKS_1MBIT);
    let report = analyze_tstd(&ts, &audio_config()).expect("analyze");
    assert!(report.violations.iter().any(
        |v| matches!(v, TStdViolation::DelayOverOneSecond { pid, .. } if *pid == AUDIO_PID)
    ));
}

/// Video: a 50 KB access unit cannot leak into EBn at
/// Rbx = 1 Mbit/s within 0.1 s — EBn underflows at the decode
/// time.
#[test]
fn eb_underflow_flagged_for_slow_leak() {
    let pcr0 = 27_000_000;
    let pts = pcr0 / 300 + 9_000; // 0.1 s after the head
    let mut cc = 0;
    let middle = pes_to_ts(VIDEO_PID, &mut cc, &video_pes(pts, None, 50_000));
    // Deliver fast (10 Mbit/s) so arrival is not the bottleneck.
    let ts = assemble(&middle, pcr0, TICKS_1MBIT / 10);
    let config = TStdConfig {
        pcr_pid: PCR_PID,
        streams: vec![(
            VIDEO_PID,
            TStdStreamModel::video_low_main_level(1_000_000, 65_536, 131_072),
        )],
        system_pids: Vec::new(),
    };
    let report = analyze_tstd(&ts, &config).expect("analyze");
    assert!(report
        .violations
        .iter()
        .any(|v| matches!(v, TStdViolation::EbUnderflow { pid, .. } if *pid == VIDEO_PID)));
}

/// A modestly-paced video stream with per-frame PES passes the
/// full video chain.
#[test]
fn conformant_video_stream_passes() {
    let pcr0 = 27_000_000;
    let mut cc = 0;
    let mut middle = Vec::new();
    // 5 frames of 2 KB at 25 fps, each decoding 0.3 s after the
    // stream head + its frame slot.
    for k in 0..5u64 {
        let pts = pcr0 / 300 + 27_000 + k * 3_600;
        middle.extend(pes_to_ts(VIDEO_PID, &mut cc, &video_pes(pts, None, 2_048)));
        // Space frames out with nulls (~0.04 s each at 4 Mbit/s).
        for _ in 0..8 {
            middle.push(null_pkt());
        }
    }
    let ts = assemble(&middle, pcr0, TICKS_1MBIT / 4);
    let config = TStdConfig {
        pcr_pid: PCR_PID,
        streams: vec![(
            VIDEO_PID,
            TStdStreamModel::video_low_main_level(4_000_000, 131_072, 262_144),
        )],
        system_pids: Vec::new(),
    };
    let report = analyze_tstd(&ts, &config).expect("analyze");
    assert!(report.is_conformant(), "{:?}", report.violations);
    let stats = &report.chains[0];
    assert_eq!(stats.access_units, 5);
    assert!(stats.peak_eb_bytes > 0);
}

/// The arrival clock survives a PCR wrap (the 33+9-bit field wraps
/// every ~26.5 h) without inventing a rate spike.
#[test]
fn arrival_clock_survives_pcr_wrap() {
    let modulus: u64 = (1 << 33) * 300;
    let pcr0 = modulus - TICKS_1MBIT * 5; // wraps mid-stream
    let pts = ((pcr0 / 300) + 18_000) & 0x1_FFFF_FFFF;
    let mut cc = 0;
    let mut middle = pes_to_ts(AUDIO_PID, &mut cc, &audio_pes(pts, 350));
    for _ in 0..10 {
        middle.push(null_pkt());
    }
    let ts = assemble(&middle, pcr0, TICKS_1MBIT);
    let report = analyze_tstd(&ts, &audio_config()).expect("analyze");
    assert!(report.is_conformant(), "{:?}", report.violations);
    // 13 packets at 1 Mbit/s ≈ 19.6 ms.
    assert!((report.modelled_seconds - 0.0196).abs() < 0.002);
}

/// A signalled time-base discontinuity re-anchors decode times on
/// the new base and carries the old transport rate across the gap
///.
#[test]
fn discontinuity_reanchors_time_base() {
    let pcr0 = 27_000_000;
    let mut out = Vec::new();
    out.extend_from_slice(&pcr_pkt(0, pcr0));
    out.extend_from_slice(&pcr_pkt(1, pcr0 + 2 * TICKS_1MBIT));
    // New time base: 1000 s, signalled.
    let new_base = 27_000_000_000;
    let disc = AdaptationFieldSpec {
        discontinuity_indicator: true,
        pcr: Some((new_base / 300, (new_base % 300) as u16)),
        ..Default::default()
    };
    out.extend_from_slice(&ts_pkt(PCR_PID, 2, false, Some(disc), &[]));
    // Audio decoding 0.2 s into the new base.
    let pts = new_base / 300 + 18_000;
    let mut cc = 0;
    for p in pes_to_ts(AUDIO_PID, &mut cc, &audio_pes(pts, 350)) {
        out.extend_from_slice(&p);
    }
    out.extend_from_slice(&pcr_pkt(3, new_base + 4 * TICKS_1MBIT));
    let report = analyze_tstd(&out, &audio_config()).expect("analyze");
    assert!(report.is_conformant(), "{:?}", report.violations);
    assert_eq!(report.chains[0].access_units, 1);
    assert!((report.chains[0].max_delay_seconds - 0.2).abs() < 0.01);
}

/// PSI packets route through TBsys → Bsys; a plausible PSI load
/// stays inside the 1536-byte Bsys.
#[test]
fn system_branch_models_psi_load() {
    let pcr0 = 27_000_000;
    let mut middle = Vec::new();
    // A PAT-ish payload burst on PID 0.
    for _ in 0..3 {
        middle.push(ts_pkt(0x0000, 0, false, None, &[0x00u8; 184]));
    }
    for _ in 0..10 {
        middle.push(null_pkt());
    }
    let mut config = audio_config();
    config.system_pids = vec![0x0000, 0x0001, 0x0100];
    let ts = assemble(&middle, pcr0, TICKS_1MBIT);
    let report = analyze_tstd(&ts, &config).expect("analyze");
    assert!(report.is_conformant(), "{:?}", report.violations);
    // The system chain reports its stats last.
    let sys = report.chains.last().unwrap();
    // At a transport rate equal to Rxsys the TBsys backlog stays
    // ~zero; Bsys accumulates against the slower Rsys drain.
    assert!(sys.peak_tb_bytes <= TB_SIZE as u64);
    assert!(sys.peak_main_bytes > 0);
    assert!(sys.peak_main_bytes <= BSYS_SIZE as u64);
}

/// Fewer than two PCRs on the PCR_PID is unsupported.
#[test]
fn too_few_pcrs_is_unsupported() {
    let mut out = Vec::new();
    out.extend_from_slice(&pcr_pkt(0, 27_000_000));
    out.extend_from_slice(&null_pkt());
    assert!(analyze_tstd(&out, &audio_config()).is_err());
}

/// Split PES envelopes (timestamp-less continuations) extend the
/// open access unit instead of starting a new one.
#[test]
fn continuation_pes_extends_access_unit() {
    let pcr0 = 27_000_000;
    let pts = pcr0 / 300 + 27_000;
    let mut cc = 0;
    let mut middle = pes_to_ts(AUDIO_PID, &mut cc, &audio_pes(pts, 350));
    // A continuation PES with no timestamp on the same PID.
    let cont = PesHeaderSpec {
        stream_id: 0xC0,
        ..Default::default()
    }
    .encode(&[0x5Au8; 300])
    .unwrap();
    middle.extend(pes_to_ts(AUDIO_PID, &mut cc, &cont));
    for _ in 0..10 {
        middle.push(null_pkt());
    }
    let ts = assemble(&middle, pcr0, TICKS_1MBIT);
    let report = analyze_tstd(&ts, &audio_config()).expect("analyze");
    assert!(report.is_conformant(), "{:?}", report.violations);
    assert_eq!(report.chains[0].access_units, 1);
}

// ---------------------------------------------------------------------------
// Streams made by the multiplexer
// ---------------------------------------------------------------------------

fn stream_info(idx: u32, codec_id: &str, _is_video: bool) -> MuxStream {
    MuxStream {
        index: idx,
        codec_id: codec_id.to_string(),
        language: None,
    }
}

fn packet(stream_index: u32, data: Vec<u8>) -> MuxPacket {
    MuxPacket {
        stream_index,
        pts: None,
        dts: None,
        keyframe: false,
        data,
    }
}

trait Timed {
    fn with_pts(self, pts: i64) -> Self;
    fn with_keyframe(self, keyframe: bool) -> Self;
}

impl Timed for MuxPacket {
    fn with_pts(mut self, pts: i64) -> Self {
        self.pts = Some(pts);
        self
    }
    fn with_keyframe(mut self, keyframe: bool) -> Self {
        self.keyframe = keyframe;
        self
    }
}

/// What a multiplexer wrote.
struct SharedSink(Vec<u8>);

impl SharedSink {
    fn new() -> Self {
        Self(Vec::new())
    }
    fn into_bytes(self) -> Vec<u8> {
        self.0
    }
}

/// PTS and payload length of every PES packet on `pids`.
fn pes_of(bytes: &[u8], pids: &[u16]) -> Vec<(i64, usize)> {
    let mut joiners: Vec<PesReassembler> = pids.iter().map(|_| PesReassembler::new()).collect();
    let mut out = Vec::new();
    for chunk in bytes.chunks_exact(TS_PACKET_LEN) {
        let pkt = TsPacket::parse(chunk).unwrap();
        if let Some(i) = pids.iter().position(|p| *p == pkt.pid) {
            if let Some(p) = joiners[i].feed(&pkt).unwrap() {
                out.push((p.pts_90k.unwrap() as i64, p.payload.len()));
            }
        }
    }
    for j in &mut joiners {
        if let Some(p) = j.flush().unwrap() {
            out.push((p.pts_90k.unwrap() as i64, p.payload.len()));
        }
    }
    out
}

/// The model routes PID 0, PID 1,
/// and the program_map_PID through ONE pooled `TBsys`, so PAT+PMT
/// bursts — `write_header`'s unanchored emission, an aggressive
/// PSI repetition interval, and the trailer re-emission — must be
/// spaced against a single 512-byte account. Per-PID pacing let a
/// short high-rate stream with SDT/NIT/EIT reach 541 bytes in the
/// pooled buffer.
#[test]
fn cbr_psi_bursts_respect_pooled_system_tb() {
    let streams = vec![stream_info(0, "h264", true)];
    let mut sink = SharedSink::new();
    {
        let mut mx = MpegTsMuxer::with_config(&streams, &MpegTsMuxConfig {
                transport_stream_id: 1,
                original_network_id: 1,
                programs: vec![ProgramSpec {
                    program_number: 1,
                    pmt_pid: 0x0100,
                    pcr_pid: None,
                    stream_indices: vec![0],
                    service: Some(ServiceSpec {
                        service_type: 0x01,
                        provider_name: b"prov".to_vec(),
                        service_name: b"svc".to_vec(),
                    }),
                    events: Vec::new(),
                    es_descriptors: Vec::new(),
                }],
                network: Some(NetworkSpec {
                    network_id: 1,
                    network_name: b"net".to_vec(),
                    network_descriptors: Vec::new(),
                    transport_descriptors: Vec::new(),
                }),
            },
        )
        .expect("open");
        mx.set_mux_rate(Some(24_000_000));
        mx.set_psi_repetition_interval(Some(4_500)); // 50 ms — every frame
        mx.write_header();
        // A couple of tiny frames close together, then the trailer
        // re-emission: three PSI bursts within a few ms of stream
        // time at 24 Mbit/s.
        for i in 0..3i64 {
            let p = packet(0, vec![0xA5; 64])
                .with_pts(9_000 + i * 9_000)
                .with_keyframe(true);
            mx.write_packet(&p).expect("packet");
        }
        mx.write_trailer().expect("trailer");
        sink.0 = mx.take_output();
    }
    let bytes = sink.into_bytes();
    let config = TStdConfig::single_program(
        FIRST_ES_PID,
        DEFAULT_PMT_PID,
        vec![(
            FIRST_ES_PID,
            TStdStreamModel::video_high_level(24_000_000, 12_000_000, 1_048_576),
        )],
    );
    let tstd = analyze_tstd(&bytes, &config).expect("tstd");
    assert!(tstd.is_conformant(), "{:?}", tstd.violations);
    assert!(validate_ts(&bytes).is_conformant());
}

/// CBR mode: the byte clock defines the arrival schedule, and the
/// muxer's own output must satisfy the T-STD model —
/// checked with the crate's `analyze_tstd` — as well as the
/// packet-level validator and an exact demux round-trip.
#[test]
fn cbr_mux_is_tstd_conformant() {
    let streams = vec![stream_info(0, "h264", true), stream_info(1, "ac3", false)];
    let mut sink = SharedSink::new();
    let mut expected: Vec<(u32, i64, usize)> = Vec::new();
    {
        let mut mx = MpegTsMuxer::new(&streams).expect("open");
        mx.set_mux_rate(Some(4_000_000));
        mx.write_header();
        // 2 s of interleaved 25 fps video (2 KB frames) and audio
        // (200 B frames every 24 ms), written in PTS order.
        let mut events: Vec<(u32, i64, usize)> = Vec::new();
        for k in 0..50i64 {
            events.push((0, 90_000 + k * 3_600, 2_048));
        }
        for k in 0..83i64 {
            events.push((1, 90_000 + k * 2_160, 200));
        }
        events.sort_by_key(|&(_, pts, _)| pts);
        for &(idx, pts, len) in &events {
            let mut p =
                packet(idx, vec![idx as u8; len]).with_pts(pts);
            if idx == 0 {
                p.keyframe = true;
            }
            mx.write_packet(&p).unwrap();
            expected.push((idx, pts, len));
        }
        mx.write_trailer().unwrap();
        sink.0 = mx.take_output();
    }
    let bytes = sink.into_bytes();
    assert_eq!(bytes.len() % TS_PACKET_LEN, 0);
    // Null filler must be present — that's what shapes the rate.
    let nulls = bytes
        .chunks_exact(TS_PACKET_LEN)
        .filter(|c| {
            let pid = (((c[1] & 0x1F) as u16) << 8) | c[2] as u16;
            pid == 0x1FFF
        })
        .count();
    assert!(nulls > 100, "CBR output should carry null filler: {nulls}");

    // Packet-level conformance.
    let report = validate_ts(&bytes);
    assert!(report.is_conformant(), "{report:?}");

    // T-STD conformance: video @ Rmax 4 Mbit/s, audio at the
    // spec-fixed figures, PSI through TBsys/Bsys.
    let config = TStdConfig::single_program(
        FIRST_ES_PID,
        DEFAULT_PMT_PID,
        vec![
            (
                FIRST_ES_PID,
                TStdStreamModel::video_low_main_level(4_000_000, 131_072, 262_144),
            ),
            (FIRST_ES_PID + 1, TStdStreamModel::audio()),
        ],
    );
    let tstd = analyze_tstd(&bytes, &config).expect("tstd");
    assert!(tstd.is_conformant(), "{:?}", tstd.violations);
    assert!(tstd.modelled_seconds > 1.5);
    // Every chain saw its access units.
    let video_stats = tstd.chains.iter().find(|c| c.pid == FIRST_ES_PID).unwrap();
    assert_eq!(video_stats.access_units, 50);
    assert!(video_stats.max_delay_seconds < 0.5);
    // Audio rides the short 40 ms lead, keeping its 3584-byte Bn
    // nearly empty.
    let audio_stats = tstd
        .chains
        .iter()
        .find(|c| c.pid == FIRST_ES_PID + 1)
        .unwrap();
    assert_eq!(audio_stats.access_units, 83);
    assert!(
        audio_stats.max_delay_seconds < 0.1,
        "audio delay {}",
        audio_stats.max_delay_seconds
    );
    assert!(
        audio_stats.peak_main_bytes < 1_500,
        "audio Bn peak {}",
        audio_stats.peak_main_bytes
    );

    // Round trip: exact PTS + payload sizes.
    let mut got = pes_of(&bytes, &[FIRST_ES_PID, FIRST_ES_PID + 1]);
    let mut want: Vec<(i64, usize)> = expected.iter().map(|&(_, p, l)| (p, l)).collect();
    want.sort();
    got.sort();
    assert_eq!(got, want);
}

/// CBR mode across a time-base discontinuity: the byte clock
/// re-anchors on the new base and the output stays T-STD
/// conformant (the model carries the old rate across the break
/// by the arrival rule).
#[test]
fn cbr_survives_time_base_discontinuity() {
    let streams = vec![stream_info(0, "h264", true)];
    let mut sink = SharedSink::new();
    {
        let mut mx = MpegTsMuxer::new(&streams).expect("open");
        mx.set_mux_rate(Some(2_000_000));
        mx.write_header();
        for k in 0..15i64 {
            mx.write_packet(
                &packet(0, vec![1; 1_024])
                    .with_pts(90_000 + k * 3_600),
            )
            .unwrap();
        }
        mx.signal_time_base_discontinuity(1).unwrap();
        for k in 0..15i64 {
            mx.write_packet(
                &packet(0, vec![2; 1_024])
                    .with_pts(900 + k * 3_600),
            )
            .unwrap();
        }
        mx.write_trailer().unwrap();
        sink.0 = mx.take_output();
    }
    let bytes = sink.into_bytes();
    let report = validate_ts(&bytes);
    assert!(report.is_conformant(), "{report:?}");
    let config = TStdConfig::single_program(
        FIRST_ES_PID,
        DEFAULT_PMT_PID,
        vec![(
            FIRST_ES_PID,
            TStdStreamModel::video_low_main_level(2_000_000, 131_072, 262_144),
        )],
    );
    let tstd = analyze_tstd(&bytes, &config).expect("tstd");
    assert!(tstd.is_conformant(), "{:?}", tstd.violations);
    assert_eq!(tstd.chains[0].access_units, 30);
}

