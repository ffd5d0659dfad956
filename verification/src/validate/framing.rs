//! A stream is judged by its packets, whatever frames them.
use vstd::prelude::*;

use crate::validate::pcr::PcrState;
use crate::validate::stream::{PidClass, Rule, TsStream};

verus! {

/// The streams hold the same packets.
pub open spec fn same_packets(a: TsStream, b: TsStream) -> bool {
    &&& a.len() == b.len()
    &&& forall|i: int| 0 <= i < a.len() ==> #[trigger] a.raw(i) == b.raw(i)
}

/// The states differ at most in byte offsets.
pub open spec fn same_clock(p: PcrState, q: PcrState) -> bool {
    &&& p.pid == q.pid
    &&& p.samples == q.samples
    &&& p.last is Some == q.last is Some
    &&& p.last is Some ==> (p.last->0).0 == (q.last->0).0
    &&& p.anchor is Some == q.anchor is Some
    &&& p.anchor is Some ==> (p.anchor->0).0 == (q.anchor->0).0
    &&& p.max_interval == q.max_interval
    &&& p.signalled_discontinuities == q.signalled_discontinuities
    &&& p.pending_discontinuity == q.pending_discontinuity
}

proof fn lemma_same_packet(a: TsStream, b: TsStream, i: int)
    requires
        same_packets(a, b),
        0 <= i < a.len(),
    ensures
        a.raw(i) == b.raw(i),
        a.parsed(i) == b.parsed(i),
        a.counts(i) == b.counts(i),
        a.afc(i) == b.afc(i),
        a.has_payload(i) == b.has_payload(i),
        a.field(i) == b.field(i),
        a.discontinuity(i) == b.discontinuity(i),
        a.starts_pat(i) == b.starts_pat(i),
{
}

proof fn lemma_same_history(a: TsStream, b: TsStream, pid: u16, i: int)
    requires
        same_packets(a, b),
        0 <= i <= a.len(),
    ensures
        a.continuity(pid, i) == b.continuity(pid, i),
        a.discovery(i) == b.discovery(i),
        same_clock(a.pcr_state(pid, i), b.pcr_state(pid, i)),
    decreases i,
{
    if i > 0 {
        lemma_same_history(a, b, pid, i - 1);
        lemma_same_packet(a, b, i - 1);
    }
}

proof fn lemma_same_event(a: TsStream, b: TsStream, i: int)
    requires
        same_packets(a, b),
        0 <= i < a.len(),
    ensures
        a.event(i) == b.event(i),
        a.signs(i) == b.signs(i),
{
    lemma_same_packet(a, b, i);
    lemma_same_history(a, b, a.packet(i).pid, i);
}

proof fn lemma_same_run(a: TsStream, b: TsStream, pid: u16, i: int)
    requires
        same_packets(a, b),
        0 <= i <= a.len(),
    ensures
        a.splice_run(pid, i) == b.splice_run(pid, i),
    decreases i,
{
    if i > 0 {
        lemma_same_run(a, b, pid, i - 1);
        lemma_same_packet(a, b, i - 1);
        lemma_same_event(a, b, i - 1);
    }
}

/// The same packets break the same rules.
pub proof fn lemma_same_breaks(a: TsStream, b: TsStream, rule: Rule, i: int)
    requires
        same_packets(a, b),
        0 <= i < a.len(),
    ensures
        a.breaks(rule, i) == b.breaks(rule, i),
{
    let pid = a.packet(i).pid;
    lemma_same_packet(a, b, i);
    lemma_same_event(a, b, i);
    lemma_same_run(a, b, pid, i);
    lemma_same_history(a, b, pid, i);
    lemma_same_history(a, b, pid, a.len() as int);
}

/// Whatever frames them, the same packets are counted alike: each rule's
/// violations, each PID's classes, the programs and the gaps between PATs.
pub proof fn lemma_framing_irrelevant(
    a: TsStream,
    b: TsStream,
    rule: Rule,
    class: PidClass,
    pid: u16,
    n: int,
)
    requires
        same_packets(a, b),
        0 <= n <= a.len(),
    ensures
        a.count(rule, n) == b.count(rule, n),
        a.pid_count(class, pid, n) == b.pid_count(class, pid, n),
        a.programs() == b.programs(),
        a.last_pat(n) == b.last_pat(n),
        a.pat_gap(n) == b.pat_gap(n),
        same_clock(a.pcr_state(pid, n), b.pcr_state(pid, n)),
    decreases n,
{
    lemma_same_history(a, b, pid, a.len() as int);
    lemma_same_history(a, b, pid, n);
    if n > 0 {
        lemma_framing_irrelevant(a, b, rule, class, pid, n - 1);
        lemma_same_breaks(a, b, rule, n - 1);
        lemma_same_packet(a, b, n - 1);
        lemma_same_event(a, b, n - 1);
    }
}

} // verus!
