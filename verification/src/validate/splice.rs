//! Coherence of splice signalling on one PID.
use vstd::prelude::*;

verus! {

/// Splice signalling in progress on a PID.
#[derive(Debug, Clone, Copy, PartialEq, Eq)]
pub struct SpliceRun {
    /// Countdown of the last annotated packet, and the payload packets since.
    pub last: Option<(i32, i32)>,
    /// `splice_type` and `DTS_next_AU` that the run has to keep.
    pub seamless: Option<(u8, u64)>,
}

/// What a packet says of splicing.
#[derive(Debug, Clone, Copy, PartialEq, Eq)]
pub struct SpliceSigns {
    /// The packet counts: payload, and not a duplicate.
    pub counts: bool,
    /// `splice_countdown`.
    pub countdown: Option<i8>,
    /// `splice_type` and `DTS_next_AU`.
    pub pair: Option<(u8, u64)>,
}

impl SpliceRun {
    /// Nothing in progress.
    pub open spec fn idle() -> SpliceRun {
        SpliceRun { last: None, seamless: None }
    }

    /// The countdown has not run past what the field can describe.
    pub open spec fn wf(self) -> bool {
        self.last matches Some((c, since)) ==> -128 <= c <= 127 && 0 <= since && c - since >= -128
    }

    /// The countdown that the packet would carry, from those before it.
    pub open spec fn expected(self, s: SpliceSigns) -> Option<int> {
        match self.last {
            Some((c, since)) => Some(c - since - (if s.counts { 1int } else { 0 })),
            None => None,
        }
    }

    /// The packet's countdown contradicts the packets before it. A new positive
    /// countdown may start once the splicing point has passed.
    pub open spec fn countdown_wrong(self, s: SpliceSigns) -> bool {
        match (s.countdown, self.expected(s)) {
            (Some(c), Some(e)) => !(e < 0 && c > 0) && c != e,
            _ => false,
        }
    }

    /// The packet breaks the seamless run: its fields are missing or differ on
    /// an annotated packet, or the countdown-zero packet is not annotated.
    pub open spec fn seamless_broken(self, s: SpliceSigns) -> bool {
        match s.countdown {
            Some(_) => self.seamless is Some && s.pair != self.seamless,
            None => self.expected(s) == Some(0int) && s.counts && self.seamless is Some,
        }
    }

    /// The run after the packet.
    pub open spec fn after(self, s: SpliceSigns) -> SpliceRun {
        match s.countdown {
            Some(c) => SpliceRun {
                last: Some((c as i32, 0i32)),
                seamless: if c <= 0 {
                    None
                } else if self.seamless is Some {
                    self.seamless
                } else {
                    s.pair
                },
            },
            None => match self.last {
                None => self,
                Some((c, since)) => if self.expected(s)->0 < -128 {
                    SpliceRun::idle()
                } else {
                    SpliceRun {
                        last: Some((c, if s.counts { (since + 1) as i32 } else { since })),
                        seamless: if self.seamless_broken(s) { None } else { self.seamless },
                    }
                },
            },
        }
    }

    /// Nothing in progress.
    pub(crate) fn new() -> (r: Self)
        ensures
            r == Self::idle(),
    {
        SpliceRun { last: None, seamless: None }
    }

    /// Take in a packet. Returns whether its countdown is wrong and whether it
    /// breaks the seamless run.
    pub(crate) fn step(&mut self, s: SpliceSigns) -> (r: (bool, bool))
        requires
            old(self).wf(),
        ensures
            r.0 == old(self).countdown_wrong(s),
            r.1 == old(self).seamless_broken(s),
            *final(self) == old(self).after(s),
            final(self).wf(),
    {
        let since: Option<(i32, i32)> = match self.last {
            Some((c, n)) => Some((c, if s.counts { n + 1 } else { n })),
            None => None,
        };
        let expected: Option<i32> = match since {
            Some((c, n)) => Some(c - n),
            None => None,
        };
        match s.countdown {
            Some(c8) => {
                let c: i32 = c8 as i32;
                let wrong: bool = match expected {
                    Some(e) => !(e < 0 && c > 0) && c != e,
                    None => false,
                };
                let broken: bool = match (self.seamless, s.pair) {
                    (Some(a), Some(b)) => a.0 != b.0 || a.1 != b.1,
                    (Some(_), None) => true,
                    (None, _) => false,
                };
                self.last = Some((c, 0));
                if c <= 0 {
                    self.seamless = None;
                } else if self.seamless.is_none() {
                    self.seamless = s.pair;
                }
                (wrong, broken)
            },
            None => match expected {
                None => (false, false),
                Some(e) => {
                    if e < -128 {
                        self.last = None;
                        self.seamless = None;
                        (false, false)
                    } else {
                        self.last = since;
                        let broken: bool = e == 0 && s.counts && self.seamless.is_some();
                        if broken {
                            self.seamless = None;
                        }
                        (false, broken)
                    }
                },
            },
        }
    }
}

/// A countdown that goes down by one with every payload packet is never wrong,
/// annotated or not.
pub proof fn lemma_exact_countdown_coherent(r: SpliceRun, s: SpliceSigns)
    requires
        s.countdown matches Some(c) ==> r.expected(s) == Some(c as int),
    ensures
        !r.countdown_wrong(s),
{
}

/// A seamless run that keeps its fields through the countdown-zero packet is not
/// broken.
pub proof fn lemma_steady_seamless_coherent(r: SpliceRun, s: SpliceSigns)
    requires
        s.countdown is Some,
        r.seamless is Some ==> s.pair == r.seamless,
    ensures
        !r.seamless_broken(s),
        s.countdown->0 > 0 ==> r.after(s).seamless == s.pair,
        s.countdown->0 <= 0 ==> r.after(s).seamless is None,
{
}

} // verus!
