//! What a report counts, by the bytes of the packets.
use vstd::prelude::*;

use crate::bits::lemma_byte_bits;
use crate::clock::ContinuityEvent;
use crate::packet::layout::TsPacketLayout;
use crate::packet::parse::TsPacketView;
use crate::psi::entries::LoopEntry;
use crate::psi::section::{section_body, section_error};
use crate::psi::section_laws::{lemma_numbers_at, pid_at};
use crate::psi::tables::pmt_error;
use crate::validate::discovery::{audio_with, lists, pids_with, programs_with, Discovery};
use crate::validate::report::{PidReport, TsValidationReport};
use crate::validate::splice::{SpliceRun, SpliceSigns};
use crate::validate::stream::{PidClass, Rule, TsStream};

verus! {

/// How many of the first `n` indices have `f`.
pub open spec fn how_many(n: int, f: spec_fn(int) -> bool) -> nat
    decreases n,
{
    if n <= 0 {
        0
    } else {
        how_many(n - 1, f) + (if f(n - 1) { 1nat } else { 0 })
    }
}

proof fn lemma_counted(s: TsStream, rule: Rule, n: int, f: spec_fn(int) -> bool)
    requires
        forall|i: int| 0 <= i < n ==> #[trigger] s.breaks(rule, i) == f(i),
    ensures
        s.count(rule, n) == how_many(n, f),
    decreases n,
{
    if n > 0 {
        lemma_counted(s, rule, n - 1, f);
        assert(s.breaks(rule, n - 1) == f(n - 1));
    }
}

proof fn lemma_pid_counted(
    s: TsStream,
    class: PidClass,
    pid: u16,
    n: int,
    f: spec_fn(int) -> bool,
)
    requires
        forall|i: int| 0 <= i < n ==> #[trigger] s.is_of(class, pid, i) == f(i),
    ensures
        s.pid_count(class, pid, n) == how_many(n, f),
    decreases n,
{
    if n > 0 {
        lemma_pid_counted(s, class, pid, n - 1, f);
        assert(s.is_of(class, pid, n - 1) == f(n - 1));
    }
}

/// Packet `i` parses, and is no padding: its PID is not 8191.
pub open spec fn is_judged(s: TsStream, i: int) -> bool {
    s.parsed(i) matches Some(p) && p.pid != 8191
}

/// The two bits of packet `i` that announce an adaptation field and a payload.
pub open spec fn control_bits(s: TsStream, i: int) -> int {
    s.raw(i)[3] as int / 16 % 4
}

/// What the counts of packets are: those that do not parse, padding, those with neither
/// adaptation field nor payload announced, those with an error bit.
pub proof fn lemma_packets_counted(r: TsValidationReport, s: TsStream)
    requires
        r.describes(s),
    ensures
        ({
            let n = s.len() as int;
            &&& r.packets == n
            &&& r.unparseable_packets == how_many(n, |i: int| s.parsed(i) is None)
            &&& r.null_packets == how_many(
                n,
                |i: int| s.parsed(i) matches Some(p) && p.pid == 8191,
            )
            &&& r.violations.reserved_afc == how_many(
                n,
                |i: int| s.raw(i)[0] == 0x47 && control_bits(s, i) == 0,
            )
            &&& r.violations.transport_error_packets == how_many(
                n,
                |i: int| is_judged(s, i) && s.packet(i).transport_error,
            )
        }),
{
    let n = s.len() as int;
    lemma_counted(s, Rule::Unparseable, n, |i: int| s.parsed(i) is None);
    lemma_counted(s, Rule::Null, n, |i: int| s.parsed(i) matches Some(p) && p.pid == 8191);
    let f = |i: int| s.raw(i)[0] == 0x47 && control_bits(s, i) == 0;
    assert forall|i: int| 0 <= i < n implies #[trigger] s.breaks(Rule::ReservedAfc, i) == f(i) by {
        lemma_byte_bits(s.raw(i)[3]);
    }
    lemma_counted(s, Rule::ReservedAfc, n, f);
    lemma_counted(
        s,
        Rule::TransportError,
        n,
        |i: int| is_judged(s, i) && s.packet(i).transport_error,
    );
}

/// What the counts of adaptation fields are: a length that is not 183 without payload, or
/// over 182 with it; an OPCR without a PCR; a seamless splice without a splicing point; a
/// random access point without a PCR on a PCR PID.
pub proof fn lemma_fields_counted(r: TsValidationReport, s: TsStream)
    requires
        r.describes(s),
    ensures
        ({
            let n = s.len() as int;
            &&& r.violations.bad_af_length == how_many(
                n,
                |i: int|
                    is_judged(s, i) && (s.field(i) matches Some(af) && (if control_bits(s, i) == 2 {
                        af.length != 183
                    } else {
                        control_bits(s, i) == 3 && af.length > 182
                    })),
            )
            &&& r.violations.opcr_without_pcr == how_many(
                n,
                |i: int|
                    is_judged(s, i) && (s.field(i) matches Some(af) && af.opcr_flag && !af.pcr_flag),
            )
            &&& r.violations.seamless_splice_without_splicing_point == how_many(
                n,
                |i: int|
                    is_judged(s, i) && (s.field(i) matches Some(af) && !af.splicing_point_flag && (
                    af.adaptation_field_extension matches Some(x) && x.seamless_splice_flag)),
            )
            &&& r.violations.rai_without_pcr_on_pcr_pid == how_many(
                n,
                |i: int|
                    is_judged(s, i) && s.programs().pcr_pids.contains(s.packet(i).pid) && (s.field(
                        i,
                    ) matches Some(af) && af.random_access_indicator && !af.pcr_flag),
            )
        }),
{
    let n = s.len() as int;
    let f = |i: int|
        is_judged(s, i) && (s.field(i) matches Some(af) && (if control_bits(s, i) == 2 {
            af.length != 183
        } else {
            control_bits(s, i) == 3 && af.length > 182
        }));
    assert forall|i: int| 0 <= i < n implies #[trigger] s.breaks(Rule::BadAfLength, i) == f(i) by {
        lemma_byte_bits(s.raw(i)[3]);
    }
    lemma_counted(s, Rule::BadAfLength, n, f);
    lemma_counted(
        s,
        Rule::OpcrWithoutPcr,
        n,
        |i: int| is_judged(s, i) && (s.field(i) matches Some(af) && af.opcr_flag && !af.pcr_flag),
    );
    lemma_counted(
        s,
        Rule::SeamlessWithoutPoint,
        n,
        |i: int|
            is_judged(s, i) && (s.field(i) matches Some(af) && !af.splicing_point_flag && (
            af.adaptation_field_extension matches Some(x) && x.seamless_splice_flag)),
    );
    lemma_counted(
        s,
        Rule::RaiWithoutPcr,
        n,
        |i: int|
            is_judged(s, i) && s.programs().pcr_pids.contains(s.packet(i).pid) && (s.field(
                i,
            ) matches Some(af) && af.random_access_indicator && !af.pcr_flag),
    );
}

/// What the counts over time are: drops on any PID; clock references on a PCR PID that
/// come more than 2700000 ticks after the one before without a signal; countdowns that
/// contradict, seamless runs that break off, and splice types but 0 on audio; and bad
/// sections.
pub proof fn lemma_histories_counted(r: TsValidationReport, s: TsStream)
    requires
        r.describes(s),
    ensures
        ({
            let n = s.len() as int;
            &&& r.violations.continuity_errors == how_many(
                n,
                |i: int| is_judged(s, i) && s.event(i) is Dropped,
            )
            &&& r.violations.pcr_interval_exceeded == how_many(
                n,
                |i: int|
                    is_judged(s, i) && s.programs().pcr_pids.contains(s.packet(i).pid) && (s.field(
                        i,
                    ) matches Some(af) && s.pcr_state(s.packet(i).pid, i).too_late(
                        af.discontinuity_indicator,
                        af.pcr_base,
                        af.pcr_extension,
                    )),
            )
            &&& r.violations.splice_countdown_inconsistent == how_many(
                n,
                |i: int|
                    is_judged(s, i) && s.splice_run(s.packet(i).pid, i).countdown_wrong(s.signs(i)),
            )
            &&& r.violations.seamless_splice_run_broken == how_many(
                n,
                |i: int|
                    is_judged(s, i) && s.splice_run(s.packet(i).pid, i).seamless_broken(s.signs(i)),
            )
            &&& r.violations.nonzero_splice_type_on_audio == how_many(
                n,
                |i: int|
                    is_judged(s, i) && s.programs().audio_pids.contains(s.packet(i).pid) && (
                    s.field(i) matches Some(af) && af.splice_countdown is Some && (
                    af.adaptation_field_extension matches Some(x) && x.dts_next_au is Some && (
                    x.splice_type matches Some(t) && t != 0))),
            )
            &&& r.violations.bad_psi_sections == s.programs().bad_sections
        }),
{
    let n = s.len() as int;
    lemma_counted(s, Rule::Continuity, n, |i: int| is_judged(s, i) && s.event(i) is Dropped);
    lemma_counted(
        s,
        Rule::LatePcr,
        n,
        |i: int|
            is_judged(s, i) && s.programs().pcr_pids.contains(s.packet(i).pid) && (s.field(
                i,
            ) matches Some(af) && s.pcr_state(s.packet(i).pid, i).too_late(
                af.discontinuity_indicator,
                af.pcr_base,
                af.pcr_extension,
            )),
    );
    lemma_counted(
        s,
        Rule::WrongCountdown,
        n,
        |i: int| is_judged(s, i) && s.splice_run(s.packet(i).pid, i).countdown_wrong(s.signs(i)),
    );
    lemma_counted(
        s,
        Rule::BrokenSeamless,
        n,
        |i: int| is_judged(s, i) && s.splice_run(s.packet(i).pid, i).seamless_broken(s.signs(i)),
    );
    let f = |i: int|
        is_judged(s, i) && s.programs().audio_pids.contains(s.packet(i).pid) && (s.field(
            i,
        ) matches Some(af) && af.splice_countdown is Some && (
        af.adaptation_field_extension matches Some(x) && x.dts_next_au is Some && (
        x.splice_type matches Some(t) && t != 0)));
    assert forall|i: int| 0 <= i < n implies #[trigger] s.breaks(Rule::AudioSpliceType, i) == f(
        i,
    ) by {}
    lemma_counted(s, Rule::AudioSpliceType, n, f);
}

/// A stream is conformant if every packet parses and nothing is counted against it.
pub proof fn lemma_clean_report(r: TsValidationReport)
    ensures
        r.violations.all_zero() <==> {
            &&& r.violations.reserved_afc == 0 && r.violations.bad_af_length == 0
            &&& r.violations.opcr_without_pcr == 0
            &&& r.violations.seamless_splice_without_splicing_point == 0
            &&& r.violations.rai_without_pcr_on_pcr_pid == 0
            &&& r.violations.continuity_errors == 0
            &&& r.violations.transport_error_packets == 0
            &&& r.violations.pcr_interval_exceeded == 0
            &&& r.violations.bad_psi_sections == 0
            &&& r.violations.splice_countdown_inconsistent == 0
            &&& r.violations.seamless_splice_run_broken == 0
            &&& r.violations.nonzero_splice_type_on_audio == 0
        },
{
}

/// What is reported of a PID: its packets, those that are scrambled, the drops, and the
/// permitted duplicates. A PID has a record if it has packets.
pub proof fn lemma_pid_reported(r: TsValidationReport, s: TsStream, pid: u16)
    requires
        r.describes(s),
        s.len() <= u64::MAX,
    ensures
        ({
            let n = s.len() as int;
            let here = |i: int| is_judged(s, i) && s.packet(i).pid == pid;
            &&& r.pids@.contains_key(pid) <==> how_many(n, here) > 0
            &&& r.pids@.contains_key(pid) ==> {
                let x = r.pids@[pid];
                &&& x.packets == how_many(n, here)
                &&& x.scrambled == how_many(
                    n,
                    |i: int| here(i) && s.packet(i).transport_scrambling_control != 0,
                )
                &&& x.continuity_errors == how_many(n, |i: int| here(i) && s.event(i) is Dropped)
                &&& x.duplicates == how_many(
                    n,
                    |i: int| here(i) && s.event(i) == ContinuityEvent::Duplicate,
                )
            }
        }),
{
    let n = s.len() as int;
    let here = |i: int| is_judged(s, i) && s.packet(i).pid == pid;
    let scrambled = |i: int| here(i) && s.packet(i).transport_scrambling_control != 0;
    let dropped = |i: int| here(i) && s.event(i) is Dropped;
    let twice = |i: int| here(i) && s.event(i) == ContinuityEvent::Duplicate;
    lemma_pid_counted(s, PidClass::Any, pid, n, here);
    lemma_pid_counted(s, PidClass::Scrambled, pid, n, scrambled);
    lemma_pid_counted(s, PidClass::Continuity, pid, n, dropped);
    lemma_pid_counted(s, PidClass::Duplicate, pid, n, twice);
    lemma_at_most(n, here);
    lemma_at_most(n, scrambled);
    lemma_at_most(n, dropped);
    lemma_at_most(n, twice);
    if r.pids@.contains_key(pid) {
        assert(r.pids@[pid] == PidReport::of(s, pid, n));
    }
}

proof fn lemma_at_most(n: int, f: spec_fn(int) -> bool)
    ensures
        n >= 0 ==> how_many(n, f) <= n,
    decreases n,
{
    if n > 0 {
        lemma_at_most(n - 1, f);
    }
}

/// The largest gap between PATs is at least every distance between two starts with none
/// between them, and is one of these distances.
pub proof fn lemma_pat_gap_is_largest(s: TsStream, n: int, a: int, b: int)
    requires
        0 <= a < b < n <= u64::MAX,
        s.starts_pat(a),
        s.starts_pat(b),
        forall|i: int| a < i < b ==> !(#[trigger] s.starts_pat(i)),
    ensures
        s.pat_gap(n) matches Some(g) && g >= b - a,
    decreases n,
{
    if b == n - 1 {
        lemma_last_pat(s, n - 1, a);
    } else {
        lemma_pat_gap_is_largest(s, n - 1, a, b);
    }
}

proof fn lemma_last_pat(s: TsStream, n: int, a: int)
    requires
        0 <= a < n <= u64::MAX,
        s.starts_pat(a),
        forall|i: int| a < i < n ==> !(#[trigger] s.starts_pat(i)),
    ensures
        s.last_pat(n) == Some(a as u64),
    decreases n,
{
    if a < n - 1 {
        assert(!s.starts_pat(n - 1));
        lemma_last_pat(s, n - 1, a);
    }
}

/// The largest gap is one that there is.
pub proof fn lemma_pat_gap_is_one(s: TsStream, n: int) -> (r: (int, int))
    requires
        0 <= n <= u64::MAX,
        s.pat_gap(n) is Some,
    ensures
        0 <= r.0 < r.1 < n,
        s.starts_pat(r.0),
        s.starts_pat(r.1),
        s.pat_gap(n) == Some((r.1 - r.0) as u64),
    decreases n,
{
    let k = n - 1;
    if s.starts_pat(k) && s.last_pat(k) is Some && s.pat_gap(n) == Some(
        (k - s.last_pat(k)->0) as u64,
    ) {
        lemma_last_pat_is_one(s, k);
        (s.last_pat(k)->0 as int, k)
    } else {
        lemma_pat_gap_is_one(s, k)
    }
}

proof fn lemma_last_pat_is_one(s: TsStream, n: int)
    requires
        0 <= n <= u64::MAX,
    ensures
        s.last_pat(n) matches Some(a) ==> a < n && s.starts_pat(a as int),
    decreases n,
{
    if n > 0 {
        lemma_last_pat_is_one(s, n - 1);
    }
}

/// A PAT starts in a packet of PID 0 that starts a unit and has payload.
pub proof fn lemma_pat_starts(s: TsStream, i: int)
    ensures
        s.starts_pat(i) <==> (s.parsed(i) matches Some(p) && p.pid == 0 && p.payload_unit_start
            && p.payload.len() > 0),
{
}

/// The programs found are those that were known, and then those of the PAT that were
/// not, once each; program 0, the network, is none.
pub proof fn lemma_programs_found(known: Seq<(u16, u16)>, pairs: Seq<(u16, u16)>, n: u16)
    ensures
        ({
            let all = programs_with(known, pairs);
            &&& known.len() <= all.len()
            &&& all.take(known.len() as int) == known
            &&& lists(all, n) <==> lists(known, n) || (n != 0 && exists|i: int|
                0 <= i < pairs.len() && (#[trigger] pairs[i]).0 == n)
            &&& forall|i: int|
                known.len() <= i < all.len() ==> pairs.contains(#[trigger] all[i]) && all[i].0 != 0
            &&& forall|i: int, j: int|
                known.len() <= i < all.len() && 0 <= j < i ==> (#[trigger] all[i]).0 != (
                #[trigger] all[j]).0
        }),
    decreases pairs.len(),
{
    let all = programs_with(known, pairs);
    if pairs.len() == 0 {
        assert(all.take(known.len() as int) =~= known);
    } else {
        let head = pairs.drop_last();
        let x = pairs.last();
        let so_far = programs_with(known, head);
        lemma_programs_found(known, head, n);
        lemma_programs_found(known, head, x.0);
        assert(forall|i: int| 0 <= i < head.len() ==> head[i] == pairs[i]);
        assert(pairs[pairs.len() - 1] == x);
        assert forall|i: int| known.len() <= i < all.len() implies pairs.contains(#[trigger] all[i])
            && all[i].0 != 0 by {
            if i < so_far.len() {
                assert(all[i] == so_far[i]);
                assert(head.contains(so_far[i]));
                let k = choose|k: int| 0 <= k < head.len() && head[k] == so_far[i];
                assert(pairs[k] == all[i]);
            } else {
                assert(all[i] == x);
            }
        }
        assert(all.take(known.len() as int) =~= known) by {
            assert(so_far.take(known.len() as int) == known);
            assert forall|i: int| 0 <= i < known.len() implies all[i] == known[i] by {
                assert(so_far.take(known.len() as int)[i] == so_far[i]);
            }
        }
        if x.0 == 0 || lists(so_far, x.0) {
            assert(all == so_far);
        } else {
            assert(all == so_far.push(x));
            assert(all[so_far.len() as int] == x);
            if lists(so_far, n) {
                let i = choose|i: int| 0 <= i < so_far.len() && (#[trigger] so_far[i]).0 == n;
                assert(all[i].0 == n);
            }
            if lists(all, n) && n != x.0 {
                let i = choose|i: int| 0 <= i < all.len() && (#[trigger] all[i]).0 == n;
                assert(so_far[i].0 == n);
            }
        }
        if exists|i: int| 0 <= i < pairs.len() && (#[trigger] pairs[i]).0 == n {
            let i = choose|i: int| 0 <= i < pairs.len() && (#[trigger] pairs[i]).0 == n;
            if i < head.len() {
                assert(head[i].0 == n);
            }
        }
    }
}

/// The PIDs taken for those of maps are those that were, and those a PAT gives to a
/// program but 0.
pub proof fn lemma_map_pids_found(known: Set<u16>, pairs: Seq<(u16, u16)>, pid: u16)
    ensures
        pids_with(known, pairs).contains(pid) <==> known.contains(pid) || exists|i: int|
            0 <= i < pairs.len() && (#[trigger] pairs[i]).1 == pid && pairs[i].0 != 0,
    decreases pairs.len(),
{
    if pairs.len() > 0 {
        let head = pairs.drop_last();
        lemma_map_pids_found(known, head, pid);
        assert(forall|i: int| 0 <= i < head.len() ==> head[i] == pairs[i]);
        if exists|i: int| 0 <= i < pairs.len() && (#[trigger] pairs[i]).1 == pid && pairs[i].0 != 0 {
            let i = choose|i: int|
                0 <= i < pairs.len() && (#[trigger] pairs[i]).1 == pid && pairs[i].0 != 0;
            if i < head.len() {
                assert(head[i].1 == pid);
            }
        }
        if exists|i: int| 0 <= i < head.len() && (#[trigger] head[i]).1 == pid && head[i].0 != 0 {
            let i = choose|i: int|
                0 <= i < head.len() && (#[trigger] head[i]).1 == pid && head[i].0 != 0;
            assert(pairs[i].1 == pid);
        }
        if pairs.last().1 == pid && pairs.last().0 != 0 {
            assert(pairs[pairs.len() - 1].1 == pid);
        }
    }
}

/// The PIDs taken for audio are those that were, and those that a map gives a stream
/// type of audio: 0x03, 0x04, 0x0F, 0x11, 0x1C, 0x80 to 0x86, 0xA1 and 0xA2.
pub proof fn lemma_audio_pids_found(known: Set<u16>, es: Seq<LoopEntry>, pid: u16)
    ensures
        audio_with(known, es).contains(pid) <==> known.contains(pid) || exists|i: int|
            0 <= i < es.len() && {
                let b = (#[trigger] es[i]).head[0];
                &&& pid_at(es[i].head, 1) == pid
                &&& b == 0x03 || b == 0x04 || b == 0x0F || b == 0x11 || b == 0x1C || 0x80 <= b
                    <= 0x86 || b == 0xA1 || b == 0xA2
            },
    decreases es.len(),
{
    if es.len() > 0 {
        let head = es.drop_last();
        lemma_audio_pids_found(known, head, pid);
        lemma_numbers_at(es.last().head, 1);
        assert(forall|i: int| 0 <= i < head.len() ==> head[i] == es[i]);
        assert(es[es.len() - 1] == es.last());
        let says = |e: LoopEntry|
            {
                let b = e.head[0];
                &&& pid_at(e.head, 1) == pid
                &&& b == 0x03 || b == 0x04 || b == 0x0F || b == 0x11 || b == 0x1C || 0x80 <= b
                    <= 0x86 || b == 0xA1 || b == 0xA2
            };
        if exists|i: int| 0 <= i < es.len() && says(#[trigger] es[i]) {
            let i = choose|i: int| 0 <= i < es.len() && says(#[trigger] es[i]);
            if i < head.len() {
                assert(says(head[i]));
            }
        }
        if exists|i: int| 0 <= i < head.len() && says(#[trigger] head[i]) {
            let i = choose|i: int| 0 <= i < head.len() && says(#[trigger] head[i]);
            assert(says(es[i]));
        }
    }
}

/// A packet tells of programs only with payload, on PID 0 or on one given to a map; the
/// PCR PID of a map is noted once, and PID 8191 is none.
pub proof fn lemma_told_by_tables(d: Discovery, p: TsPacketView, s: Seq<u8>)
    ensures
        p.payload.len() == 0 || (p.pid != 0 && !d.pmt_pids.contains(p.pid)) ==> d.with_packet(p)
            == d,
        ({
            let body = section_body(s);
            let pcr = pid_at(body, 0) as u16;
            pmt_error(s) is None ==> {
                &&& d.with_pmt(s).bad_sections == d.bad_sections
                &&& d.with_pmt(s).pcr_pids == if pcr == 8191 || d.pcr_pids.contains(pcr) {
                    d.pcr_pids
                } else {
                    d.pcr_pids.push(pcr)
                }
            }
        }),
        pmt_error(s) is Some ==> d.with_pmt(s).bad_sections == d.bad_sections + 1,
        section_error(s, 0) is Some ==> d.with_pat(s).bad_sections
            == d.bad_sections + 1 && d.with_pat(s).pat_sections == d.pat_sections,
        section_error(s, 0) is None ==> d.with_pat(s).bad_sections
            == d.bad_sections && d.with_pat(s).pat_sections == d.pat_sections + 1,
{
    lemma_numbers_at(section_body(s), 0);
}

/// A countdown goes down by one with every packet that counts: one that is `since`
/// packets after the value `c` has to be `c - since`, unless the splicing point has
/// passed and a new positive countdown starts.
pub proof fn lemma_countdown_goes_down(r: SpliceRun, s: SpliceSigns, c: i32, since: i32, now: i8)
    requires
        r.last == Some((c, since)),
        s.countdown == Some(now),
    ensures
        ({
            let due = c - since - (if s.counts { 1int } else { 0 });
            r.countdown_wrong(s) <==> now != due && !(due < 0 && now > 0)
        }),
        r.after(s).last == Some((now as i32, 0i32)),
{
}

/// A packet without a countdown goes uncounted where it carries no payload; where it
/// counts, the run goes on, until the countdown leaves what its field can hold.
pub proof fn lemma_run_goes_on(r: SpliceRun, s: SpliceSigns, c: i32, since: i32)
    requires
        r.last == Some((c, since)),
        s.countdown is None,
        -128 <= c <= 127,
        0 <= since <= 255,
    ensures
        ({
            let n = since + (if s.counts { 1int } else { 0 });
            &&& c - n >= -128 ==> r.after(s).last == Some((c, n as i32))
            &&& c - n < -128 ==> r.after(s).last is None
        }),
        !r.countdown_wrong(s),
{
}

/// A seamless run is broken by a packet with a countdown but another pair of splice type
/// and time, or none; and by the packet of countdown zero without any.
pub proof fn lemma_seamless_breaks(r: SpliceRun, s: SpliceSigns)
    requires
        r.seamless is Some,
    ensures
        s.countdown is Some ==> (r.seamless_broken(s) <==> s.pair != r.seamless),
        s.countdown is None ==> (r.seamless_broken(s) <==> s.counts && (r.last matches Some(
            (c, since),
        ) && c - since == 1)),
{
}

/// What else a report says: the framing, the programs in the order in which they were
/// found, a record for each PCR PID, in that order, the valid PAT sections, and the
/// largest gap between PATs.
pub proof fn lemma_programs_reported(r: TsValidationReport, s: TsStream, k: int)
    requires
        r.describes(s),
        0 <= k < s.programs().pcr_pids.len(),
    ensures
        r.layout == Some(s.layout),
        r.programs@ == s.programs().programs,
        r.pcr@.len() == s.programs().pcr_pids.len(),
        r.pcr@[k].pid == s.programs().pcr_pids[k],
        r.pcr@[k].samples == s.pcr_state(s.programs().pcr_pids[k], s.len() as int).samples,
        r.pat_sections == s.programs().pat_sections,
        r.pat_max_gap_packets == s.pat_gap(s.len() as int),
{
    lemma_state_pid(s, s.programs().pcr_pids[k], s.len() as int);
    assert(r.pcr@[k] == s.pcr_state(s.programs().pcr_pids[k], s.len() as int).reported());
}

proof fn lemma_state_pid(s: TsStream, pid: u16, n: int)
    ensures
        s.pcr_state(pid, n).pid == pid,
    decreases n,
{
    if n > 0 {
        lemma_state_pid(s, pid, n - 1);
    }
}

/// The clock references of a PID are counted one by one.
pub proof fn lemma_samples_counted(s: TsStream, pid: u16, n: int)
    requires
        n <= u64::MAX,
    ensures
        s.pcr_state(pid, n).samples == how_many(
            n,
            |i: int|
                is_judged(s, i) && s.packet(i).pid == pid && (s.field(i) matches Some(af)
                    && af.pcr_base is Some),
        ),
        s.pcr_state(pid, n).signalled_discontinuities == how_many(
            n,
            |i: int|
                is_judged(s, i) && s.packet(i).pid == pid && (s.field(i) matches Some(af)
                    && af.discontinuity_indicator),
        ),
    decreases n,
{
    let f = |i: int|
        is_judged(s, i) && s.packet(i).pid == pid && (s.field(i) matches Some(af) && af.pcr_base
            is Some);
    let g = |i: int|
        is_judged(s, i) && s.packet(i).pid == pid && (s.field(i) matches Some(af)
            && af.discontinuity_indicator);
    lemma_at_most(n - 1, f);
    lemma_at_most(n - 1, g);
    if n > 0 {
        lemma_samples_counted(s, pid, n - 1);
        let a = s.pcr_state(pid, n - 1);
        assert(f(n - 1) ==> s.pcr_state(pid, n).samples == (a.samples + 1) as u64);
    }
}

/// The report of what has no framing says nothing.
pub proof fn lemma_empty_report(r: TsValidationReport)
    requires
        r.is_empty(),
    ensures
        r.layout is None,
        r.packets == 0 && r.unparseable_packets == 0 && r.null_packets == 0,
        r.programs@.len() == 0,
        r.pcr@.len() == 0,
        r.pids@.dom() == Set::<u16>::empty(),
        r.violations.all_zero(),
        r.pat_sections == 0,
        r.pat_max_gap_packets is None,
{
}

/// What goes into the judgement of a packet: its counter, whether it announces a payload,
/// and whether it signals a discontinuity, against the packets of its PID before it.
pub proof fn lemma_judged_by_fields(s: TsStream, i: int, pid: u16)
    requires
        0 <= i < s.len(),
        s.parsed(i) is Some,
    ensures
        ({
            let p = s.packet(i);
            let payload = control_bits(s, i) % 2 == 1;
            let told = p.adaptation_field matches Some(af) && af.discontinuity_indicator;
            &&& s.event(i) == s.continuity(p.pid, i).event(p.continuity_counter, payload, told)
            &&& is_judged(s, i) ==> s.continuity(p.pid, i + 1) == s.continuity(p.pid, i).observed(
                p.continuity_counter,
                payload,
                told,
            )
            &&& pid != p.pid ==> s.continuity(pid, i + 1) == s.continuity(pid, i) && s.splice_run(
                pid,
                i + 1,
            ) == s.splice_run(pid, i) && s.pcr_state(pid, i + 1) == s.pcr_state(pid, i)
            &&& is_judged(s, i) ==> s.splice_run(p.pid, i + 1) == s.splice_run(p.pid, i).after(
                s.signs(i),
            )
            &&& s.signs(i).counts == (payload && s.event(i) != ContinuityEvent::Duplicate)
            &&& s.signs(i).countdown == match p.adaptation_field {
                Some(af) => af.splice_countdown,
                None => None,
            }
            &&& s.discovery(i + 1) == s.discovery(i).with_packet(p)
        }),
{
    lemma_byte_bits(s.raw(i)[3]);
}

/// A clock reference is measured at the first byte of its packet in the file.
pub proof fn lemma_measured_at_packet(s: TsStream, i: int)
    requires
        0 <= i < s.len(),
        s.bytes.len() <= u64::MAX,
        is_judged(s, i),
        s.field(i) is Some,
    ensures
        ({
            let p = s.packet(i);
            let af = s.field(i)->0;
            let size = if s.layout == TsPacketLayout::STANDARD {
                188int
            } else if s.layout == TsPacketLayout::PREFIXED_192 {
                192
            } else {
                204
            };
            s.pcr_state(p.pid, i + 1) == s.pcr_state(p.pid, i).after(
                af.discontinuity_indicator,
                af.pcr_base,
                af.pcr_extension,
                (size * i) as u64,
            )
        }),
{
    assert(i * 188 == 188 * i && i * 192 == 192 * i && i * 204 == 204 * i);
}

} // verus!
