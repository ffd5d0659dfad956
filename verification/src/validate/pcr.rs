//! The clock references of one PCR PID.
use vstd::prelude::*;

use crate::clock::PCR_MODULUS_27MHZ;

verus! {

/// Largest interval between consecutive PCRs: 0,1 s of the 27 MHz clock.
pub const MAX_PCR_INTERVAL_27MHZ: u64 = 2_700_000;

/// PCR health of one PCR PID.
#[derive(Debug, Clone, Copy, PartialEq, Eq)]
pub struct PcrReport {
    /// The PCR PID.
    pub pid: u16,
    /// PCRs seen.
    pub samples: u64,
    /// Largest interval between consecutive PCRs, in 27 MHz ticks. A signalled
    /// discontinuity restarts the measurement.
    pub max_interval_27mhz: Option<u64>,
    /// `discontinuity_indicator`s on the PID.
    pub signalled_discontinuities: u64,
    /// Transport rate in bit/s, from the first to the last PCR since the last
    /// discontinuity.
    pub estimated_rate_bps: Option<u64>,
}

/// What the packets so far have told of a PCR PID.
#[derive(Debug, Clone, Copy, PartialEq, Eq)]
pub struct PcrState {
    /// The PCR PID.
    pub pid: u16,
    /// PCRs seen.
    pub samples: u64,
    /// Last PCR: ticks, and the byte offset of its packet.
    pub last: Option<(u64, u64)>,
    /// First PCR since the last discontinuity.
    pub anchor: Option<(u64, u64)>,
    /// Largest interval.
    pub max_interval: Option<u64>,
    /// `discontinuity_indicator`s seen.
    pub signalled_discontinuities: u64,
    /// The next PCR starts a new time base.
    pub pending_discontinuity: bool,
}

/// Ticks from clock value `a` on to clock value `b`, both below the modulus.
pub open spec fn ticks_between(a: u64, b: u64) -> int {
    (b - a) % PCR_MODULUS_27MHZ as int
}

/// Ticks of a PCR. An extension over 299 is folded in.
pub open spec fn pcr_ticks(base: u64, ext: u16) -> u64 {
    ((base * 300 + ext) % PCR_MODULUS_27MHZ as int) as u64
}

impl PcrState {
    /// Nothing seen.
    pub open spec fn start(pid: u16) -> PcrState {
        PcrState {
            pid,
            samples: 0,
            last: None,
            anchor: None,
            max_interval: None,
            signalled_discontinuities: 0,
            pending_discontinuity: false,
        }
    }

    /// Clock values are below the modulus, and nothing counts more than `n`
    /// packets.
    pub open spec fn wf(self, n: int) -> bool {
        &&& self.samples <= n
        &&& self.signalled_discontinuities <= n
        &&& self.last matches Some((t, _)) ==> t < PCR_MODULUS_27MHZ
        &&& self.anchor matches Some((t, _)) ==> t < PCR_MODULUS_27MHZ
        &&& self.last is Some <==> self.anchor is Some
    }

    /// After a packet's `discontinuity_indicator`.
    pub open spec fn signalled(self, discontinuity: bool) -> PcrState {
        if discontinuity {
            PcrState {
                signalled_discontinuities: (self.signalled_discontinuities + 1) as u64,
                pending_discontinuity: true,
                ..self
            }
        } else {
            self
        }
    }

    /// A PCR of `ticks` has an interval to the one before it.
    pub open spec fn interval(self, ticks: u64) -> Option<int> {
        match self.last {
            Some((prev, _)) if !self.pending_discontinuity => Some(ticks_between(prev, ticks)),
            _ => None,
        }
    }

    /// After a PCR of `ticks` in the packet at `offset`.
    pub open spec fn sampled(self, ticks: u64, offset: u64) -> PcrState {
        let at = (ticks, offset);
        match self.interval(ticks) {
            None => PcrState {
                samples: (self.samples + 1) as u64,
                last: Some(at),
                anchor: Some(at),
                pending_discontinuity: false,
                ..self
            },
            Some(d) => PcrState {
                samples: (self.samples + 1) as u64,
                last: Some(at),
                max_interval: match self.max_interval {
                    Some(m) => Some(if d > m { d as u64 } else { m }),
                    None => Some(d as u64),
                },
                ..self
            },
        }
    }

    /// After a packet at `offset` with an adaptation field.
    pub open spec fn after(
        self,
        discontinuity: bool,
        base: Option<u64>,
        ext: Option<u16>,
        offset: u64,
    ) -> PcrState {
        match base {
            None => self.signalled(discontinuity),
            Some(b) => self.signalled(discontinuity).sampled(
                pcr_ticks(b, ext_or_zero(ext)),
                offset,
            ),
        }
    }

    /// The packet's PCR comes too long after the one before it.
    pub open spec fn too_late(
        self,
        discontinuity: bool,
        base: Option<u64>,
        ext: Option<u16>,
    ) -> bool {
        match base {
            None => false,
            Some(b) => self.signalled(discontinuity).interval(
                pcr_ticks(b, ext_or_zero(ext)),
            ) matches Some(d) && d > MAX_PCR_INTERVAL_27MHZ,
        }
    }

    /// Bits per second between anchor and last PCR.
    pub open spec fn rate(self) -> Option<u64> {
        match (self.anchor, self.last) {
            (Some((t0, o0)), Some((t1, o1))) => if o1 > o0 && t1 != t0 {
                let bps = (o1 - o0) * 8 * 27_000_000 / ticks_between(t0, t1);
                if bps <= u64::MAX { Some(bps as u64) } else { None }
            } else {
                None
            },
            _ => None,
        }
    }

    /// The report.
    pub open spec fn reported(self) -> PcrReport {
        PcrReport {
            pid: self.pid,
            samples: self.samples,
            max_interval_27mhz: self.max_interval,
            signalled_discontinuities: self.signalled_discontinuities,
            estimated_rate_bps: self.rate(),
        }
    }

    pub(crate) fn new(pid: u16) -> (r: Self)
        ensures
            r == Self::start(pid),
    {
        PcrState {
            pid,
            samples: 0,
            last: None,
            anchor: None,
            max_interval: None,
            signalled_discontinuities: 0,
            pending_discontinuity: false,
        }
    }

    /// Take in a packet with an adaptation field. Returns whether its PCR is too
    /// late.
    pub(crate) fn step(
        &mut self,
        discontinuity: bool,
        base: Option<u64>,
        ext: Option<u16>,
        offset: u64,
        n: Ghost<int>,
    ) -> (late: bool)
        requires
            old(self).wf(n@),
            n@ < u64::MAX,
            base matches Some(b) ==> b < 0x2_0000_0000,
        ensures
            *final(self) == old(self).after(discontinuity, base, ext, offset),
            late == old(self).too_late(discontinuity, base, ext),
            final(self).wf(n@ + 1),
    {
        if discontinuity {
            self.signalled_discontinuities = self.signalled_discontinuities + 1;
            self.pending_discontinuity = true;
        }
        let b: u64 = match base {
            Some(b) => b,
            None => {
                return false;
            },
        };
        let e: u16 = match ext {
            Some(e) => e,
            None => 0,
        };
        let ticks: u64 = (b * 300 + e as u64) % PCR_MODULUS_27MHZ;
        self.samples = self.samples + 1;
        let mut late: bool = false;
        if self.pending_discontinuity || self.last.is_none() {
            self.pending_discontinuity = false;
            self.anchor = Some((ticks, offset));
        } else if let Some((prev, _)) = self.last {
            let delta: u64 = (ticks + PCR_MODULUS_27MHZ - prev) % PCR_MODULUS_27MHZ;
            assert(delta == ticks_between(prev, ticks));
            self.max_interval = match self.max_interval {
                Some(m) => Some(if delta > m { delta } else { m }),
                None => Some(delta),
            };
            late = delta > MAX_PCR_INTERVAL_27MHZ;
        }
        self.last = Some((ticks, offset));
        late
    }

    pub(crate) fn report(&self) -> (r: PcrReport)
        requires
            exists|n: int| self.wf(n),
        ensures
            r == self.reported(),
    {
        let estimated_rate_bps: Option<u64> = match (self.anchor, self.last) {
            (Some((t0, o0)), Some((t1, o1))) => {
                if o1 > o0 && t1 != t0 {
                    let ticks: u64 = (t1 + PCR_MODULUS_27MHZ - t0) % PCR_MODULUS_27MHZ;
                    assert(ticks == ticks_between(t0, t1));
                    let bits: u128 = (o1 - o0) as u128 * 8 * 27_000_000;
                    let bps: u128 = bits / ticks as u128;
                    if bps <= u64::MAX as u128 {
                        Some(bps as u64)
                    } else {
                        None
                    }
                } else {
                    None
                }
            },
            _ => None,
        };
        PcrReport {
            pid: self.pid,
            samples: self.samples,
            max_interval_27mhz: self.max_interval,
            signalled_discontinuities: self.signalled_discontinuities,
            estimated_rate_bps,
        }
    }
}

/// The extension, zero when there is none.
pub open spec fn ext_or_zero(ext: Option<u16>) -> u16 {
    match ext {
        Some(e) => e,
        None => 0,
    }
}

/// A signalled discontinuity makes any PCR legitimate.
pub proof fn lemma_signalled_gap_legitimate(s: PcrState, base: Option<u64>, ext: Option<u16>)
    ensures
        !s.too_late(true, base, ext),
{
}

} // verus!
