//! What a validation finds in the output of the multiplexer.
use vstd::prelude::*;

use crate::clock::Continuity;
use crate::muxer::clean::is_clean;
use crate::muxer::counting::{all_count, counter_in, counts_to, is_used, owned};
use crate::muxer::found::{is_audio_pid, is_clock_pid, lemma_told_put, tells_true, told};
use crate::muxer::mux::MuxView;
use crate::muxer::plan_laws::laid_out;
use crate::muxer::read_back::{
    counted_on, lemma_counting_is_continuous, lemma_packets_on_put, packets_on, seen, signals,
};
use crate::muxer::settling::{at_home, homed, is_clocked, settled, stream_settled};
use crate::muxer::tidy::{
    all_marked, all_mute, clocked_marks, lemma_agrees_at, lemma_mute_is_idle, run_of, signs_of,
    splices_at_once,
};
use crate::muxer::well_formed::{is_sound, is_stream, lemma_stream_len, orderly, sound};
use crate::packet::layout::{detected_layout, TsPacketLayout};
use crate::stream_type::is_audio_byte;
use crate::validate::discovery::NULL_PID;
use crate::validate::report::TsValidationReport;
use crate::validate::stream::{Rule, TsStream};

verus! {

/// The stream of 188-byte packets `out`.
pub open spec fn plain_stream(out: Seq<u8>) -> TsStream {
    TsStream { layout: TsPacketLayout::STANDARD, bytes: out }
}

/// Where packet `i` of a plain stream is.
pub(crate) proof fn lemma_packet_at(out: Seq<u8>, i: int)
    ensures
        plain_stream(out).raw(i) == out.subrange(188 * i, 188 * i + 188),
        plain_stream(out).len() == out.len() / 188,
{
    let layout = TsPacketLayout::STANDARD;
    assert(layout.size() == 188 && layout.offset() == 0);
    assert(i * 188 == 188 * i);
}

/// Every packet of a stream of clean packets is clean.
pub proof fn lemma_packets_clean(out: Seq<u8>, i: int)
    requires
        is_stream(out),
        0 <= i < plain_stream(out).len(),
    ensures
        is_clean(plain_stream(out).raw(i)),
        plain_stream(out).raw(i).len() == 188,
    decreases out.len(),
{
    lemma_stream_len(out);
    reveal(is_stream);
    let n = out.len() / 188;
    assert(out.len() == 188 * n);
    let head = out.take(out.len() - 188);
    lemma_packet_at(out, i);
    lemma_packet_at(head, i);
    if i == n - 1 {
        assert(plain_stream(out).raw(i) =~= out.skip(out.len() - 188));
    } else {
        assert(head.len() == 188 * (n - 1));
        lemma_packets_clean(head, i);
        assert(plain_stream(out).raw(i) =~= plain_stream(head).raw(i));
    }
}

/// The rules on single packets.
pub open spec fn is_local(rule: Rule) -> bool {
    match rule {
        Rule::Unparseable => true,
        Rule::ReservedAfc => true,
        Rule::BadAfLength => true,
        Rule::OpcrWithoutPcr => true,
        Rule::SeamlessWithoutPoint => true,
        Rule::TransportError => true,
        _ => false,
    }
}

/// A validation of the output never finds a packet that breaks a rule on single
/// packets: each one parses, announces a field or a payload, has a field of the
/// right length, no stray OPCR, no seamless splice without a splicing point, and
/// no transport error.
pub proof fn lemma_single_packet_rules_kept(out: Seq<u8>, rule: Rule, n: int)
    requires
        is_stream(out),
        is_local(rule),
        n <= plain_stream(out).len(),
    ensures
        plain_stream(out).count(rule, n) == 0,
    decreases n,
{
    if n > 0 {
        lemma_single_packet_rules_kept(out, rule, n - 1);
        lemma_packets_clean(out, n - 1);
    }
}

/// The first `i` packets of `out`.
pub(crate) proof fn lemma_prefix_grows(out: Seq<u8>, i: int)
    requires
        is_stream(out),
        0 <= i < plain_stream(out).len(),
    ensures
        out.take(188 * (i + 1)) == out.take(188 * i) + plain_stream(out).raw(i),
{
    lemma_stream_len(out);
    lemma_packet_at(out, i);
    assert(188 * (i + 1) <= out.len());
    assert(out.take(188 * (i + 1)) =~= out.take(188 * i) + plain_stream(out).raw(i));
}

/// A validation knows of a PID what an observer of its packets does.
proof fn lemma_observed(out: Seq<u8>, pid: u16, i: int)
    requires
        is_stream(out),
        pid != NULL_PID,
        0 <= i <= plain_stream(out).len(),
    ensures
        plain_stream(out).continuity(pid, i) == seen(
            Continuity::start(),
            packets_on(out.take(188 * i), pid),
        ),
    decreases i,
{
    if i == 0 {
        reveal(packets_on);
        assert(packets_on(out.take(0), pid).len() == 0);
    } else {
        let s = plain_stream(out);
        lemma_observed(out, pid, i - 1);
        lemma_prefix_grows(out, i - 1);
        lemma_packets_clean(out, i - 1);
        let before = packets_on(out.take(188 * (i - 1)), pid);
        let p = s.packet(i - 1);
        lemma_packets_on_put(out.take(188 * (i - 1)), s.raw(i - 1), pid);
        if s.on(pid, i - 1) {
            assert(before.push(p).drop_last() =~= before);
            assert(signals(p) == s.discontinuity(i - 1));
            assert(s.has_payload(i - 1) == (p.payload.len() > 0));
        }
    }
}

/// What the first packets bring on a PID comes first.
proof fn lemma_prefix_packets(out: Seq<u8>, pid: u16, i: int, n: int)
    requires
        is_stream(out),
        0 <= i <= n <= plain_stream(out).len(),
    ensures
        ({
            let a = packets_on(out.take(188 * i), pid);
            let b = packets_on(out.take(188 * n), pid);
            a.len() <= b.len() && b.take(a.len() as int) == a
        }),
    decreases n - i,
{
    let a = packets_on(out.take(188 * i), pid);
    let b = packets_on(out.take(188 * n), pid);
    if i == n {
        assert(b.take(a.len() as int) =~= a);
    } else {
        lemma_prefix_packets(out, pid, i, n - 1);
        lemma_prefix_grows(out, n - 1);
        lemma_packets_clean(out, n - 1);
        lemma_packets_on_put(out.take(188 * (n - 1)), plain_stream(out).raw(n - 1), pid);
        assert(b.take(a.len() as int) =~= packets_on(out.take(188 * (n - 1)), pid).take(
            a.len() as int,
        ));
    }
}

/// Packet `i` of `out`, among the packets on its PID.
pub(crate) proof fn lemma_packet_in_turn(out: Seq<u8>, i: int)
    requires
        is_stream(out),
        0 <= i < plain_stream(out).len(),
        plain_stream(out).counts(i),
    ensures
        ({
            let s = plain_stream(out);
            let pid = s.packet(i).pid;
            let ps = packets_on(out, pid);
            let before = packets_on(out.take(188 * i), pid);
            let k = before.len() as int;
            &&& k < ps.len()
            &&& ps.take(k) == before
            &&& ps[k] == s.packet(i)
            &&& packets_on(out.take(188 * (i + 1)), pid) == before.push(s.packet(i))
            &&& signals(s.packet(i)) == s.discontinuity(i)
            &&& s.has_payload(i) == (s.packet(i).payload.len() > 0)
        }),
{
    let s = plain_stream(out);
    let n = s.len() as int;
    let p = s.packet(i);
    let pid = p.pid;
    let ps = packets_on(out, pid);
    let before = packets_on(out.take(188 * i), pid);
    let k = before.len() as int;
    lemma_stream_len(out);
    assert(out.take(188 * n) =~= out);
    lemma_prefix_packets(out, pid, i, n);
    lemma_prefix_packets(out, pid, i + 1, n);
    lemma_prefix_grows(out, i);
    lemma_packets_clean(out, i);
    lemma_packets_on_put(out.take(188 * i), s.raw(i), pid);
    assert(packets_on(out.take(188 * (i + 1)), pid) == before.push(p));
    assert(ps.take(k + 1) == before.push(p));
    assert(ps[k] == ps.take(k + 1)[k]);
}

/// A packet of a PID that counts on is taken neither for a gap nor for a repeat.
proof fn lemma_no_gap_at(out: Seq<u8>, c: u8, i: int)
    requires
        is_stream(out),
        0 <= i < plain_stream(out).len(),
        plain_stream(out).counts(i),
        counts_to(packets_on(out, plain_stream(out).packet(i).pid), c),
    ensures
        !(plain_stream(out).event(i) is Dropped),
        !(plain_stream(out).event(i) is Duplicate),
{
    let s = plain_stream(out);
    let pid = s.packet(i).pid;
    let ps = packets_on(out, pid);
    let k = packets_on(out.take(188 * i), pid).len() as int;
    reveal(counts_to);
    let c0 = choose|c0: u8| c0 < 16 && #[trigger] counted_on(ps, c0) == Some(c);
    lemma_packet_in_turn(out, i);
    lemma_observed(out, pid, i);
    lemma_counting_is_continuous(ps, c0, Continuity::start(), k);
}

/// Where every PID has one owner, a packet belongs to a stream or to a table.
pub(crate) proof fn lemma_has_owner(m: MuxView, i: int)
    requires
        is_sound(m),
        owned(m.plan),
        0 <= i < plain_stream(m.flow.out).len(),
        plain_stream(m.flow.out).counts(i),
    ensures
        is_used(m.plan, plain_stream(m.flow.out).packet(i).pid),
{
    let out = m.flow.out;
    let q = plain_stream(out).packet(i).pid;
    reveal(sound);
    reveal(orderly);
    lemma_packet_in_turn(out, i);
    assert(packets_on(out, q).len() > 0);
    reveal(all_count);
}

/// Where every PID has one owner, no packet is taken for a gap or for a repeat.
pub proof fn lemma_counted_at(m: MuxView, i: int)
    requires
        is_sound(m),
        owned(m.plan),
        0 <= i < plain_stream(m.flow.out).len(),
        plain_stream(m.flow.out).counts(i),
    ensures
        !(plain_stream(m.flow.out).event(i) is Dropped),
        !(plain_stream(m.flow.out).event(i) is Duplicate),
{
    let out = m.flow.out;
    let q = plain_stream(out).packet(i).pid;
    reveal(sound);
    reveal(orderly);
    lemma_has_owner(m, i);
    reveal(all_count);
    if exists|t: int| 0 <= t < m.plan.tracks.len() && (#[trigger] m.plan.tracks[t]).pid == q {
        let t = choose|t: int|
            0 <= t < m.plan.tracks.len() && (#[trigger] m.plan.tracks[t]).pid == q;
        lemma_no_gap_at(out, m.flow.tracks[t].cc, i);
    } else {
        let k = choose|k: int|
            0 <= k < m.plan.tables.len() && (#[trigger] m.plan.tables[k]).pid == q;
        lemma_no_gap_at(
            out,
            counter_in(m.flow.table_cc, m.flow.pmt_cc, m.plan.tables[k].slot),
            i,
        );
    }
}

/// A validation of the output never finds a gap in the continuity counters, on
/// any PID, where every PID has one owner.
pub proof fn lemma_continuity_kept(m: MuxView, n: int)
    requires
        is_sound(m),
        owned(m.plan),
        n <= plain_stream(m.flow.out).len(),
    ensures
        plain_stream(m.flow.out).count(Rule::Continuity, n) == 0,
    decreases n,
{
    if n > 0 {
        lemma_continuity_kept(m, n - 1);
        if plain_stream(m.flow.out).counts(n - 1) {
            lemma_counted_at(m, n - 1);
        }
    }
}

/// A validation finds of the programs what the output tells.
proof fn lemma_discovered(out: Seq<u8>, i: int)
    requires
        is_stream(out),
        0 <= i <= plain_stream(out).len(),
    ensures
        plain_stream(out).discovery(i) == told(out.take(188 * i)),
    decreases i,
{
    if i == 0 {
        reveal(told);
    } else {
        lemma_discovered(out, i - 1);
        lemma_prefix_grows(out, i - 1);
        lemma_packets_clean(out, i - 1);
        lemma_told_put(out.take(188 * (i - 1)), plain_stream(out).raw(i - 1));
    }
}

/// A validation follows splicing on a PID as its packets go.
proof fn lemma_run_followed(m: MuxView, pid: u16, i: int)
    requires
        is_sound(m),
        owned(m.plan),
        is_stream(m.flow.out),
        pid != NULL_PID,
        0 <= i <= plain_stream(m.flow.out).len(),
    ensures
        plain_stream(m.flow.out).splice_run(pid, i) == run_of(
            packets_on(m.flow.out.take(188 * i), pid),
        ),
    decreases i,
{
    let out = m.flow.out;
    let s = plain_stream(out);
    if i == 0 {
        reveal(packets_on);
        assert(packets_on(out.take(0), pid).len() == 0);
    } else {
        lemma_run_followed(m, pid, i - 1);
        let before = packets_on(out.take(188 * (i - 1)), pid);
        let p = s.packet(i - 1);
        lemma_prefix_grows(out, i - 1);
        lemma_packets_clean(out, i - 1);
        lemma_packets_on_put(out.take(188 * (i - 1)), s.raw(i - 1), pid);
        if s.on(pid, i - 1) {
            lemma_packet_in_turn(out, i - 1);
            lemma_counted_at(m, i - 1);
            assert(before.push(p).drop_last() =~= before);
            assert(s.signs(i - 1) == signs_of(p));
        }
    }
}

/// Packet `i` is a whole PES packet up to a splicing point, while an earlier
/// splicing point is still being counted.
pub open spec fn splices_again(s: TsStream, i: int) -> bool {
    &&& s.counts(i)
    &&& splices_at_once(s.packet(i))
    &&& s.splice_run(s.packet(i).pid, i).last is Some
}

/// The rules on splicing and access points.
pub open spec fn is_on_marks(rule: Rule) -> bool {
    match rule {
        Rule::RaiWithoutPcr => true,
        Rule::AudioSpliceType => true,
        Rule::BrokenSeamless => true,
        _ => false,
    }
}

/// The validation knows of the programs what the whole output tells.
proof fn lemma_programs_told(out: Seq<u8>)
    requires
        is_stream(out),
    ensures
        plain_stream(out).programs() == told(out),
{
    let s = plain_stream(out);
    lemma_stream_len(out);
    lemma_discovered(out, s.len() as int);
    assert(out.take(188 * (s.len() as int)) =~= out);
}

/// A stream on a PCR PID is that of its program's clock.
pub(crate) proof fn lemma_pcr_pid_clocked(m: MuxView, t: int)
    requires
        is_sound(m),
        homed(m.plan),
        is_stream(m.flow.out),
        0 <= t < m.plan.tracks.len(),
        plain_stream(m.flow.out).programs().pcr_pids.contains(m.plan.tracks[t].pid),
    ensures
        is_clocked(m.plan, t),
{
    let out = m.flow.out;
    let q = m.plan.tracks[t].pid;
    lemma_programs_told(out);
    assert(is_clock_pid(m.plan, q)) by {
        reveal(sound);
        reveal(settled);
        reveal(tells_true);
        let x = choose|x: int| 0 <= x < told(out).pcr_pids.len() && told(out).pcr_pids[x] == q;
        assert(told(out).pcr_pids[x] == q);
    }
    reveal(at_home);
    let x = choose|x: int|
        0 <= x < m.plan.programs.len() && (#[trigger] m.plan.programs[x]).pcr_pid == q;
    assert(m.plan.tracks[t].program == x);
}

/// A packet of a stream keeps the rules on splicing and access points.
proof fn lemma_stream_marks_kept(m: MuxView, t: int, i: int, rule: Rule)
    requires
        is_sound(m),
        homed(m.plan),
        is_stream(m.flow.out),
        0 <= i < plain_stream(m.flow.out).len(),
        plain_stream(m.flow.out).counts(i),
        0 <= t < m.plan.tracks.len(),
        m.plan.tracks[t].pid == plain_stream(m.flow.out).packet(i).pid,
    ensures
        is_on_marks(rule) ==> !plain_stream(m.flow.out).breaks(rule, i),
        plain_stream(m.flow.out).breaks(Rule::WrongCountdown, i) ==> splices_again(
            plain_stream(m.flow.out),
            i,
        ),
{
    let out = m.flow.out;
    let s = plain_stream(out);
    let p = s.packet(i);
    let ps = packets_on(out, p.pid);
    let k = packets_on(out.take(188 * i), p.pid).len() as int;
    lemma_packet_in_turn(out, i);
    lemma_run_followed(m, p.pid, i);
    lemma_counted_at(m, i);
    assert(s.signs(i) == signs_of(p));
    assert(settled(out, m.flow.tracks, m.plan)) by {
        reveal(sound);
    }
    assert(stream_settled(out, m.flow.tracks, m.plan, t) && tells_true(told(out), m.plan)) by {
        reveal(settled);
    }
    lemma_agrees_at(ps, k);
    lemma_programs_told(out);
    assert(clocked_marks(ps[k], is_clocked(m.plan, t), !m.plan.tracks[t].is_video)) by {
        reveal(all_marked);
    }
    if s.programs().pcr_pids.contains(p.pid) {
        lemma_pcr_pid_clocked(m, t);
    }
    if s.programs().audio_pids.contains(p.pid) {
        assert(!m.plan.tracks[t].is_video) by {
            reveal(tells_true);
            reveal(at_home);
            reveal(laid_out);
            assert(is_audio_pid(m.plan, p.pid));
            let x = choose|x: int|
                0 <= x < m.plan.tracks.len() && (#[trigger] m.plan.tracks[x]).pid == p.pid
                    && is_audio_byte(m.plan.tracks[x].stream_type);
            assert(x == t) by {
                if x != t {
                    assert(m.plan.tracks[x].pid != m.plan.tracks[t].pid);
                }
            }
        }
    }
}

/// A packet of a table keeps the rules on splicing and access points.
proof fn lemma_table_marks_kept(m: MuxView, k: int, i: int, rule: Rule)
    requires
        is_sound(m),
        homed(m.plan),
        is_stream(m.flow.out),
        0 <= i < plain_stream(m.flow.out).len(),
        plain_stream(m.flow.out).counts(i),
        0 <= k < m.plan.tables.len(),
        m.plan.tables[k].pid == plain_stream(m.flow.out).packet(i).pid,
    ensures
        is_on_marks(rule) ==> !plain_stream(m.flow.out).breaks(rule, i),
        !plain_stream(m.flow.out).breaks(Rule::WrongCountdown, i),
{
    let out = m.flow.out;
    let s = plain_stream(out);
    let p = s.packet(i);
    let ps = packets_on(out, p.pid);
    let x = packets_on(out.take(188 * i), p.pid).len() as int;
    lemma_packet_in_turn(out, i);
    lemma_run_followed(m, p.pid, i);
    lemma_counted_at(m, i);
    assert(s.signs(i) == signs_of(p));
    assert(all_mute(packets_on(out, m.plan.tables[k].pid))) by {
        reveal(sound);
        reveal(settled);
    }
    lemma_mute_is_idle(ps, x);
    assert(ps[x].adaptation_field is None) by {
        reveal(all_mute);
    }
}

/// A validation of the output never finds an access point without the clock
/// that belongs there, a splice type that audio cannot have, or a seamless splice
/// broken off, where everything is where it belongs. It finds a wrong countdown
/// only where a frame of one packet is spliced while an earlier splicing point is
/// still being counted.
pub proof fn lemma_marks_kept(m: MuxView, rule: Rule, n: int)
    requires
        is_sound(m),
        homed(m.plan),
        n <= plain_stream(m.flow.out).len(),
        is_on_marks(rule) || (rule is WrongCountdown && forall|i: int|
            0 <= i < n ==> !(#[trigger] splices_again(plain_stream(m.flow.out), i))),
    ensures
        plain_stream(m.flow.out).count(rule, n) == 0,
    decreases n,
{
    if n > 0 {
        lemma_marks_kept(m, rule, n - 1);
        let s = plain_stream(m.flow.out);
        let i = n - 1;
        let q = s.packet(i).pid;
        assert(is_stream(m.flow.out)) by {
            reveal(sound);
            reveal(orderly);
        }
        if s.counts(i) {
            lemma_has_owner(m, i);
            if exists|t: int| 0 <= t < m.plan.tracks.len() && (#[trigger] m.plan.tracks[t]).pid == q {
                let t = choose|t: int|
                    0 <= t < m.plan.tracks.len() && (#[trigger] m.plan.tracks[t]).pid == q;
                lemma_stream_marks_kept(m, t, i, rule);
            } else {
                let k = choose|k: int|
                    0 <= k < m.plan.tables.len() && (#[trigger] m.plan.tables[k]).pid == q;
                lemma_table_marks_kept(m, k, i, rule);
            }
            assert(!splices_again(s, i) || is_on_marks(rule));
        }
    }
}

/// The output is recognised as a plain stream.
pub proof fn lemma_framing_found(out: Seq<u8>)
    requires
        is_stream(out),
        out.len() > 0,
    ensures
        detected_layout(out) == Some(TsPacketLayout::STANDARD),
{
    let s = plain_stream(out);
    lemma_stream_len(out);
    assert(s.len() >= 1);
    assert forall|i: int| 0 <= i < TsPacketLayout::STANDARD.count(out) && i < 8 implies out[
        #[trigger] (i * TsPacketLayout::STANDARD.size()) + TsPacketLayout::STANDARD.offset()] == 0x47
        by {
        lemma_packets_clean(out, i);
        assert(s.raw(i)[0] == out[i * 188]);
    }
}

/// What a validation reports of the output of a multiplexer: plain framing, every
/// packet parsed, no rule on single packets broken; where every PID has one owner,
/// no continuity error; and where everything is where it belongs, no bad section,
/// no access point without the clock that belongs there, no splice type that audio
/// cannot have, and no seamless splice broken off, nor a wrong countdown but for a
/// frame of one packet that is spliced while an earlier splicing point is still
/// being counted.
pub proof fn lemma_report_of_output(m: MuxView, r: TsValidationReport)
    requires
        is_sound(m),
        m.flow.out.len() > 0,
        detected_layout(m.flow.out) matches Some(layout) ==> r.describes(
            TsStream { layout, bytes: m.flow.out },
        ),
    ensures
        r.layout == Some(TsPacketLayout::STANDARD),
        r.packets == m.flow.out.len() / 188,
        r.unparseable_packets == 0,
        r.violations.reserved_afc == 0,
        r.violations.bad_af_length == 0,
        r.violations.opcr_without_pcr == 0,
        r.violations.seamless_splice_without_splicing_point == 0,
        r.violations.transport_error_packets == 0,
        owned(m.plan) ==> r.violations.continuity_errors == 0,
        homed(m.plan) ==> {
            &&& r.violations.bad_psi_sections == 0
            &&& r.violations.rai_without_pcr_on_pcr_pid == 0
            &&& r.violations.nonzero_splice_type_on_audio == 0
            &&& r.violations.seamless_splice_run_broken == 0
            &&& (forall|i: int|
                0 <= i < plain_stream(m.flow.out).len() ==> !(#[trigger] splices_again(
                    plain_stream(m.flow.out),
                    i,
                ))) ==> r.violations.splice_countdown_inconsistent == 0
        },
{
    let out = m.flow.out;
    assert(is_stream(out)) by {
        reveal(sound);
        reveal(orderly);
    }
    lemma_framing_found(out);
    let n = plain_stream(out).len() as int;
    lemma_single_packet_rules_kept(out, Rule::Unparseable, n);
    lemma_single_packet_rules_kept(out, Rule::ReservedAfc, n);
    lemma_single_packet_rules_kept(out, Rule::BadAfLength, n);
    lemma_single_packet_rules_kept(out, Rule::OpcrWithoutPcr, n);
    lemma_single_packet_rules_kept(out, Rule::SeamlessWithoutPoint, n);
    lemma_single_packet_rules_kept(out, Rule::TransportError, n);
    if owned(m.plan) {
        lemma_continuity_kept(m, n);
    }
    if homed(m.plan) {
        lemma_marks_kept(m, Rule::RaiWithoutPcr, n);
        lemma_marks_kept(m, Rule::AudioSpliceType, n);
        lemma_marks_kept(m, Rule::BrokenSeamless, n);
        if forall|i: int| 0 <= i < n ==> !(#[trigger] splices_again(plain_stream(out), i)) {
            lemma_marks_kept(m, Rule::WrongCountdown, n);
        }
        lemma_programs_told(out);
        assert(told(out).bad_sections == 0) by {
            reveal(sound);
            reveal(settled);
            reveal(tells_true);
        }
    }
}

} // verus!
