//! Sizes and rates of the decoder model.
use vstd::prelude::*;

verus! {

/// Size of every transport buffer, in bytes.
pub const TB_SIZE: usize = 512;

/// Size of the main buffer for system data, in bytes.
pub const BSYS_SIZE: usize = 1536;

/// `Rxn` of audio, in bit/s.
pub const AUDIO_RX_BPS: u64 = 2_000_000;

/// `BSn` of audio, in bytes.
pub const AUDIO_MAIN_BUFFER_SIZE: usize = 3584;

/// `Rxsys`, in bit/s.
pub const RXSYS_BPS: u64 = 1_000_000;

/// Least `Rsys`, in bit/s.
pub const RSYS_MIN_BPS: u64 = 80_000;

/// What follows the transport buffer of an elementary stream.
#[derive(Debug, Clone, Copy, PartialEq, Eq, Structural)]
pub enum TStdBranch {
    /// A main buffer, from which whole access units leave at their decode time.
    Main {
        /// `BSn` in bytes.
        buffer_size: usize,
    },
    /// A multiplexing buffer that leaks into an elementary-stream buffer.
    Video {
        /// Leak rate `Rbxn` in bit/s.
        rbx_bps: u64,
        /// `MBSn` in bytes.
        mb_size: usize,
        /// `EBSn` in bytes.
        eb_size: usize,
    },
}

/// Parameters of one elementary stream.
#[derive(Debug, Clone, Copy, PartialEq, Eq, Structural)]
pub struct TStdStreamModel {
    /// Rate `Rxn` at which the transport buffer drains, in bit/s.
    pub rx_bps: u64,
    /// The buffers behind it.
    pub branch: TStdBranch,
}

/// `BSmux + BSoh` in bytes: 4 ms and 1/750 s of `rmax_bps`.
pub open spec fn multiplexing_room(rmax_bps: u64) -> int {
    rmax_bps / 250 / 8 + rmax_bps / 750 / 8
}

/// What the multiplexing buffer gets of the difference to the largest VBV.
pub open spec fn vbv_headroom(vbv_max_bytes: usize, vbv_buffer_size_bytes: usize) -> int {
    if vbv_max_bytes > vbv_buffer_size_bytes {
        vbv_max_bytes - vbv_buffer_size_bytes
    } else {
        0
    }
}

impl TStdStreamModel {
    /// Audio other than ADTS.
    pub fn audio() -> (r: Self)
        ensures
            r == (TStdStreamModel {
                rx_bps: 2_000_000,
                branch: TStdBranch::Main { buffer_size: 3584 },
            }),
    {
        TStdStreamModel {
            rx_bps: AUDIO_RX_BPS,
            branch: TStdBranch::Main { buffer_size: AUDIO_MAIN_BUFFER_SIZE },
        }
    }

    /// Video at Low or Main level: `Rxn` is 1,2 times `Rmax`, the leak rate is
    /// `Rmax`, and the multiplexing buffer has the headroom up to `VBVmax`.
    pub fn video_low_main_level(
        rmax_bps: u64,
        vbv_buffer_size_bytes: usize,
        vbv_max_bytes: usize,
    ) -> (r: Self)
        requires
            rmax_bps + rmax_bps / 5 <= u64::MAX,
            multiplexing_room(rmax_bps) + vbv_headroom(vbv_max_bytes, vbv_buffer_size_bytes)
                <= usize::MAX,
        ensures
            r == (TStdStreamModel {
                rx_bps: (rmax_bps + rmax_bps / 5) as u64,
                branch: TStdBranch::Video {
                    rbx_bps: rmax_bps,
                    mb_size: (multiplexing_room(rmax_bps) + vbv_headroom(
                        vbv_max_bytes,
                        vbv_buffer_size_bytes,
                    )) as usize,
                    eb_size: vbv_buffer_size_bytes,
                },
            }),
    {
        let overhead: usize = (rmax_bps / 750 / 8) as usize;
        let mux: usize = (rmax_bps / 250 / 8) as usize;
        let headroom: usize = if vbv_max_bytes > vbv_buffer_size_bytes {
            vbv_max_bytes - vbv_buffer_size_bytes
        } else {
            0
        };
        TStdStreamModel {
            rx_bps: rmax_bps + rmax_bps / 5,
            branch: TStdBranch::Video {
                rbx_bps: rmax_bps,
                mb_size: mux + overhead + headroom,
                eb_size: vbv_buffer_size_bytes,
            },
        }
    }

    /// Video at High-1440 or High level: no headroom, and the leak rate is 1,05
    /// times the rate of the elementary stream, but at most `Rmax`.
    pub fn video_high_level(rmax_bps: u64, res_bps: u64, vbv_buffer_size_bytes: usize) -> (r: Self)
        requires
            rmax_bps + rmax_bps / 5 <= u64::MAX,
            res_bps + res_bps / 20 <= u64::MAX,
            multiplexing_room(rmax_bps) <= usize::MAX,
        ensures
            r == (TStdStreamModel {
                rx_bps: (rmax_bps + rmax_bps / 5) as u64,
                branch: TStdBranch::Video {
                    rbx_bps: if res_bps + res_bps / 20 < rmax_bps {
                        (res_bps + res_bps / 20) as u64
                    } else {
                        rmax_bps
                    },
                    mb_size: multiplexing_room(rmax_bps) as usize,
                    eb_size: vbv_buffer_size_bytes,
                },
            }),
    {
        let overhead: usize = (rmax_bps / 750 / 8) as usize;
        let mux: usize = (rmax_bps / 250 / 8) as usize;
        let raised: u64 = res_bps + res_bps / 20;
        TStdStreamModel {
            rx_bps: rmax_bps + rmax_bps / 5,
            branch: TStdBranch::Video {
                rbx_bps: if raised < rmax_bps { raised } else { rmax_bps },
                mb_size: mux + overhead,
                eb_size: vbv_buffer_size_bytes,
            },
        }
    }
}

/// The buffers that a packet enters.
#[derive(Debug, Clone, Copy, PartialEq, Eq, Structural)]
pub enum Route {
    /// Those of an elementary stream, by its place in the configuration.
    Stream(usize),
    /// Those for system data.
    System,
    /// None.
    Nowhere,
}

/// What to model of one program.
#[derive(Debug, Clone)]
pub struct TStdConfig {
    /// PID whose clock references drive the arrival clock.
    pub pcr_pid: u16,
    /// PID and parameters of each elementary stream.
    pub streams: Vec<(u16, TStdStreamModel)>,
    /// PIDs of system data.
    pub system_pids: Vec<u16>,
}

impl Default for TStdConfig {
    fn default() -> (r: Self)
        ensures
            r.pcr_pid == 0,
            r.streams@ == Seq::<(u16, TStdStreamModel)>::empty(),
            r.system_pids@ == Seq::<u16>::empty(),
    {
        TStdConfig { pcr_pid: 0, streams: Vec::new(), system_pids: Vec::new() }
    }
}

impl TStdConfig {
    /// Place of the first stream on `pid` at or after place `from`.
    pub open spec fn stream_on(self, pid: u16, from: int) -> Option<int>
        decreases self.streams@.len() - from,
    {
        if from < 0 || from >= self.streams@.len() {
            None
        } else if self.streams@[from].0 == pid {
            Some(from)
        } else {
            self.stream_on(pid, from + 1)
        }
    }

    /// The buffers that a packet of `pid` enters.
    pub open spec fn routes(self, pid: u16) -> Route {
        match self.stream_on(pid, 0) {
            Some(i) => Route::Stream(i as usize),
            None => if self.system_pids@.contains(pid) {
                Route::System
            } else {
                Route::Nowhere
            },
        }
    }

    /// One program, with the PAT, the CAT and its PMT as system data.
    pub fn single_program(
        pcr_pid: u16,
        pmt_pid: u16,
        streams: Vec<(u16, TStdStreamModel)>,
    ) -> (r: Self)
        ensures
            r.pcr_pid == pcr_pid,
            r.streams@ == streams@,
            r.system_pids@ == seq![0u16, 1u16, pmt_pid],
    {
        let mut system_pids: Vec<u16> = Vec::new();
        system_pids.push(0x0000);
        system_pids.push(0x0001);
        system_pids.push(pmt_pid);
        assert(system_pids@ =~= seq![0u16, 1u16, pmt_pid]);
        TStdConfig { pcr_pid, streams, system_pids }
    }

    /// The buffers that a packet of `pid` enters: those of the first stream with
    /// that PID, else those for system data.
    pub fn route(&self, pid: u16) -> (r: Route)
        ensures
            r == self.routes(pid),
    {
        let mut i: usize = 0;
        while i < self.streams.len()
            invariant
                i <= self.streams@.len(),
                self.stream_on(pid, 0) == self.stream_on(pid, i as int),
            decreases self.streams@.len() - i,
        {
            if self.streams[i].0 == pid {
                return Route::Stream(i);
            }
            i += 1;
        }
        let mut j: usize = 0;
        while j < self.system_pids.len()
            invariant
                j <= self.system_pids@.len(),
                self.stream_on(pid, 0) is None,
                forall|k: int| 0 <= k < j ==> self.system_pids@[k] != pid,
            decreases self.system_pids@.len() - j,
        {
            if self.system_pids[j] == pid {
                assert(self.system_pids@[j as int] == pid);
                return Route::System;
            }
            j += 1;
        }
        Route::Nowhere
    }
}

} // verus!
