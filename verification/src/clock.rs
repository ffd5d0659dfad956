//! Continuity counters and wrapping 90 kHz timestamps.
use vstd::prelude::*;

verus! {

/// Ticks after which a clock reference wraps: `2^33 * 300`.
pub const PCR_MODULUS_27MHZ: u64 = 2_576_980_377_600;

/// Ticks after which a PTS or DTS wraps: `2^33`.
pub const TIMESTAMP_MODULUS: u64 = 8_589_934_592;

/// What a packet's continuity counter says.
#[derive(Debug, Clone, Copy, PartialEq, Eq, Structural)]
pub enum ContinuityEvent {
    /// The expected counter, or the first one.
    Continuous,
    /// The one permitted repeat of the previous packet.
    Duplicate,
    /// No payload, so the counter does not count.
    NoPayload,
    /// Packets are missing; the distance from the expected counter.
    Dropped { gap: u8 },
    /// A signalled discontinuity.
    Discontinuity,
}

/// Observer of the continuity counters of one PID.
#[derive(Debug, Clone, Copy, PartialEq, Eq)]
pub struct ContinuityTracker {
    last: Option<u8>,
    repeated: bool,
}

/// The state of a tracker.
pub struct Continuity {
    /// Counter of the last packet with payload.
    pub last: Option<u8>,
    /// That packet has been repeated.
    pub repeated: bool,
}

impl Continuity {
    /// Before any packet.
    pub open spec fn start() -> Continuity {
        Continuity { last: None, repeated: false }
    }

    /// What a packet is.
    pub open spec fn event(self, cc: u8, has_payload: bool, discontinuity: bool) -> ContinuityEvent {
        let c = (cc % 16) as int;
        if discontinuity {
            ContinuityEvent::Discontinuity
        } else if !has_payload {
            ContinuityEvent::NoPayload
        } else {
            match self.last {
                None => ContinuityEvent::Continuous,
                Some(l) => if c == (l + 1) % 16 {
                    ContinuityEvent::Continuous
                } else if c == l && !self.repeated {
                    ContinuityEvent::Duplicate
                } else {
                    ContinuityEvent::Dropped { gap: ((c - l - 1) % 16) as u8 }
                },
            }
        }
    }

    /// The state after a packet.
    pub open spec fn observed(
        self,
        cc: u8,
        has_payload: bool,
        discontinuity: bool,
    ) -> Continuity {
        match self.event(cc, has_payload, discontinuity) {
            ContinuityEvent::NoPayload => self,
            _ => Continuity {
                last: Some((cc % 16) as u8),
                repeated: !discontinuity && self.last == Some((cc % 16) as u8),
            },
        }
    }
}

impl View for ContinuityTracker {
    type V = Continuity;

    closed spec fn view(&self) -> Continuity {
        Continuity { last: self.last, repeated: self.repeated }
    }
}

impl Default for ContinuityTracker {
    fn default() -> (r: Self)
        ensures
            r@ == Continuity::start(),
    {
        ContinuityTracker { last: None, repeated: false }
    }
}

impl ContinuityTracker {
    #[verifier::type_invariant]
    spec fn in_range(self) -> bool {
        self.last matches Some(l) ==> l < 16
    }

    /// A tracker that has seen nothing.
    pub fn new() -> (r: Self)
        ensures
            r@ == Continuity::start(),
    {
        ContinuityTracker { last: None, repeated: false }
    }

    /// Classify the next packet. A second repeat of one packet counts as a drop.
    pub fn observe(&mut self, cc: u8, has_payload: bool, discontinuity: bool) -> (r:
        ContinuityEvent)
        ensures
            r == old(self)@.event(cc, has_payload, discontinuity),
            final(self)@ == old(self)@.observed(cc, has_payload, discontinuity),
    {
        proof {
            use_type_invariant(&*self);
        }
        let c: u8 = cc % 16;
        if !discontinuity && !has_payload {
            return ContinuityEvent::NoPayload;
        }
        let event: ContinuityEvent = if discontinuity {
            ContinuityEvent::Discontinuity
        } else {
            match self.last {
                None => ContinuityEvent::Continuous,
                Some(l) => {
                    if c == (l + 1) % 16 {
                        ContinuityEvent::Continuous
                    } else if c == l && !self.repeated {
                        ContinuityEvent::Duplicate
                    } else {
                        ContinuityEvent::Dropped { gap: (c + 15 - l) % 16 }
                    }
                },
            }
        };
        self.repeated = match self.last {
            Some(l) => !discontinuity && l == c,
            None => false,
        };
        self.last = Some(c);
        event
    }
}

/// Packets that count up one by one are continuous.
pub proof fn lemma_increments_continuous(s: Continuity, cc: u8)
    requires
        s.last matches Some(l) ==> cc % 16 == (l + 1) % 16,
    ensures
        s.event(cc, true, false) == ContinuityEvent::Continuous,
        s.observed(cc, true, false).last == Some((cc % 16) as u8),
{
}

/// A packet may be repeated once; any further repeat is a drop.
pub proof fn lemma_one_duplicate(s: Continuity, cc: u8)
    requires
        s.last == Some((cc % 16) as u8),
    ensures
        !s.repeated ==> s.event(cc, true, false) == ContinuityEvent::Duplicate,
        s.repeated ==> s.event(cc, true, false) is Dropped,
        s.observed(cc, true, false).repeated,
{
}

/// A packet without payload changes nothing.
pub proof fn lemma_no_payload_ignored(s: Continuity, cc: u8)
    ensures
        s.observed(cc, false, false) == s,
{
}

/// The timestamp that reads `raw` modulo its wrap and lies nearest to
/// `reference`, among those not negative. Of two equally near, the one in the
/// reference's own period.
pub open spec fn nearest(raw: u64, reference: int) -> int {
    let m = TIMESTAMP_MODULUS as int;
    let here = reference - reference % m + raw as int % m;
    if here > reference + m / 2 && here >= m {
        here - m
    } else if here + m / 2 < reference {
        here + m
    } else {
        here
    }
}

/// Extend a wrapping 33-bit timestamp to the timeline on which `reference`
/// stands.
pub fn extend_near(raw: u64, reference: u128) -> (r: u128)
    requires
        reference <= u128::MAX - 2 * TIMESTAMP_MODULUS,
    ensures
        r == nearest(raw, reference as int),
{
    let modulus: u128 = TIMESTAMP_MODULUS as u128;
    let here: u128 = reference - reference % modulus + raw as u128 % modulus;
    if here > reference + modulus / 2 && here >= modulus {
        here - modulus
    } else if here + modulus / 2 < reference {
        here + modulus
    } else {
        here
    }
}

/// An extended timestamp reads as the raw one did, and no other such timestamp
/// that is not negative is nearer to the reference.
pub proof fn lemma_extension_nearest(raw: u64, reference: int, other: int)
    requires
        0 <= reference,
        raw < TIMESTAMP_MODULUS,
        0 <= other,
        other % (TIMESTAMP_MODULUS as int) == raw,
    ensures
        nearest(raw, reference) >= 0,
        nearest(raw, reference) % (TIMESTAMP_MODULUS as int) == raw,
        vstd::math::abs(nearest(raw, reference) - reference) <= vstd::math::abs(other - reference),
{
    let m = TIMESTAMP_MODULUS as int;
    let k = reference / m;
    let j = other / m;
    assert(reference - reference % m == m * k) by {
        vstd::arithmetic::div_mod::lemma_fundamental_div_mod(reference, m);
    }
    vstd::arithmetic::div_mod::lemma_fundamental_div_mod(other, m);
    assert(nearest(raw, reference) == m * k + raw || nearest(raw, reference) == m * k + raw - m
        || nearest(raw, reference) == m * k + raw + m);
    assert(other == m * j + raw);
}

/// Between two packets with payload the gap is the number of those that are missing:
/// up to fourteen; fifteen where a packet comes a third time.
pub proof fn lemma_gap_is_what_is_missing(s: Continuity, cc: u8, missing: u8)
    requires
        s.last matches Some(l) && l < 16 && cc % 16 == (l + 1 + missing) % 16,
        1 <= missing <= 14 || (missing == 15 && s.repeated),
    ensures
        s.event(cc, true, false) == (ContinuityEvent::Dropped { gap: missing }),
{
    let l = s.last->0;
    assert((cc % 16 - l - 1) % 16 == missing);
}

/// The first packet is continuous; a signalled discontinuity is that whatever the counter
/// is, with payload or without, and counting goes on from it; a packet without payload
/// is only that.
pub proof fn lemma_events_without_history(s: Continuity, cc: u8, has_payload: bool)
    ensures
        Continuity::start().event(cc, true, false) == ContinuityEvent::Continuous,
        s.event(cc, has_payload, true) == ContinuityEvent::Discontinuity,
        s.observed(cc, has_payload, true) == (Continuity {
            last: Some((cc % 16) as u8),
            repeated: false,
        }),
        s.event(cc, false, false) == ContinuityEvent::NoPayload,
{
}

/// After any packet with payload the next one expected is one more, in four bits.
pub proof fn lemma_expects_one_more(s: Continuity, cc: u8, discontinuity: bool, next: u8)
    requires
        s.last matches Some(l) ==> l < 16,
    ensures
        s.observed(cc, true, discontinuity).event(next, true, false) == ContinuityEvent::Continuous
            <==> next % 16 == (cc + 1) % 16,
{
}

/// An extended timestamp agrees with the raw one in its 33 bits, and lies at most half a
/// wrap from the reference, or in the first wrap.
pub proof fn lemma_extension_reads_same(raw: u64, reference: int)
    requires
        0 <= reference,
    ensures
        (nearest(raw, reference) - raw) % 0x2_0000_0000 == 0,
        nearest(raw, reference) >= 0,
        nearest(raw, reference) - reference <= 0x1_0000_0000 || nearest(raw, reference)
            < 0x2_0000_0000,
        reference - nearest(raw, reference) <= 0x1_0000_0000,
{
    let m = 0x2_0000_0000int;
    vstd::arithmetic::div_mod::lemma_fundamental_div_mod(reference, m);
    vstd::arithmetic::div_mod::lemma_fundamental_div_mod(raw as int, m);
    let k = reference / m;
    let j = raw as int / m;
    let x = nearest(raw, reference);
    let r = raw as int % m;
    assert(x == m * k + r || x == m * k + r - m || x == m * k + r + m);
    assert(x - raw == m * (k - j) || x - raw == m * (k - j - 1) || x - raw == m * (k - j + 1))
        by (nonlinear_arith)
        requires
            x == m * k + r || x == m * k + r - m || x == m * k + r + m,
            raw == m * j + r,
    ;
    vstd::arithmetic::div_mod::lemma_mod_multiples_basic(k - j, m);
    vstd::arithmetic::div_mod::lemma_mod_multiples_basic(k - j - 1, m);
    vstd::arithmetic::div_mod::lemma_mod_multiples_basic(k - j + 1, m);
    assert(m * (k - j) == (k - j) * m && m * (k - j - 1) == (k - j - 1) * m && m * (k - j + 1) == (k
        - j + 1) * m) by (nonlinear_arith);
    assert(k >= 0) by (nonlinear_arith)
        requires
            reference == m * k + reference % m,
            0 <= reference,
            reference % m < m,
            m > 0,
    ;
}

} // verus!
