//! How sections come out of packets: whole, in order, and none over the limit.
use vstd::prelude::*;

use crate::bits::lemma_byte_bits;
use crate::psi::assembler::{cut, extended, is_section, Assembly};
use crate::psi::entries::overrun;
use crate::psi::section_laws::{lemma_numbers_at, length_at};

verus! {

/// A run that starts with a whole section gives that section, and then those of what
/// follows; one that starts with stuffing gives none.
pub proof fn lemma_sections_in_a_row(s: Seq<u8>, rest: Seq<u8>)
    ensures
        is_section(s) ==> {
            &&& cut(s + rest).sections == seq![s] + cut(rest).sections
            &&& cut(s + rest).error == cut(rest).error
            &&& cut(s + rest).pending == cut(rest).pending
        },
        rest.len() == 0 || rest[0] == 255 ==> cut(rest).sections.len() == 0 && cut(
            rest,
        ).pending.len() == 0 && cut(rest).error is None,
{
    if is_section(s) {
        let all = s + rest;
        assert(all[0] == s[0] && all[1] == s[1] && all[2] == s[2]);
        assert(all.take(s.len() as int) =~= s);
        assert(all.skip(s.len() as int) =~= rest);
    }
}

/// A section is whole with the three bytes before its length and as many as that counts,
/// 1024 at most, and does not start with stuffing.
pub proof fn lemma_whole_section(s: Seq<u8>)
    ensures
        is_section(s) <==> s.len() >= 3 && s.len() == 3 + length_at(s, 1) && s.len() <= 1024 && s[0]
            != 255,
{
    lemma_numbers_at(s, 1);
}

/// A section that announces more than 1024 bytes is an error, wherever it starts.
pub proof fn lemma_oversized_refused(pending: Seq<u8>, bytes: Seq<u8>)
    requires
        (pending + bytes).len() >= 3,
        3 + length_at(pending + bytes, 1) > 1024,
    ensures
        ({
            let all = pending + bytes;
            let e = Some(overrun(length_at(all, 1), all.len() - 3));
            &&& extended(pending, bytes).error == e
            &&& extended(pending, bytes).sections.len() == 0
            &&& extended(pending, bytes).pending.len() == 0
            &&& all[0] != 255 ==> cut(all).error == e && cut(all).pending.len() == 0
        }),
{
    lemma_numbers_at(pending + bytes, 1);
}

/// A packet whose counter is not one more than the last one, in four bits, discards what
/// was pending; one that is keeps it.
pub proof fn lemma_lost_packet_discards(a: Assembly, l: u8, cc: u8, payload: Seq<u8>)
    requires
        a.last_cc == Some(l),
        l < 16,
        cc < 16,
    ensures
        cc != (l + 1) % 16 ==> a.kept(cc).len() == 0,
        cc == (l + 1) % 16 ==> a.kept(cc) == a.pending,
        cc != (l + 1) % 16 ==> a.gathered(payload, false, cc).sections.len() == 0 && a.fed(
            payload,
            false,
            cc,
        ).pending.len() == 0,
        a.fed(payload, false, cc).last_cc == Some(cc),
        a.fed(payload, true, cc).last_cc == Some(cc),
{
    lemma_byte_bits(cc);
    lemma_byte_bits((l + 1) as u8);
}

/// The bytes that a pointer field skips end the section in flight, and what follows them
/// starts anew.
pub proof fn lemma_pointer_ends_section(
    a: Assembly,
    tail: Seq<u8>,
    rest: Seq<u8>,
    cc: u8,
)
    requires
        tail.len() <= 255,
        a.kept(cc).len() > 0,
        is_section(a.kept(cc) + tail),
    ensures
        ({
            let g = a.gathered(seq![tail.len() as u8] + tail + rest, true, cc);
            &&& g.sections == seq![a.kept(cc) + tail] + cut(rest).sections
            &&& g.error == cut(rest).error
            &&& g.pending == cut(rest).pending
        }),
{
    let p = seq![tail.len() as u8] + tail + rest;
    let n = tail.len() as int;
    assert(p.subrange(1, 1 + n) =~= tail);
    assert(p.skip(1 + n) =~= rest);
    let s = a.kept(cc) + tail;
    assert(s.take(s.len() as int) =~= s);
}

/// A packet that starts nothing goes on with the section in flight, and is ignored where
/// there is none.
pub proof fn lemma_continuation_needs_start(a: Assembly, payload: Seq<u8>, cc: u8)
    ensures
        a.kept(cc).len() == 0 ==> a.gathered(payload, false, cc).sections.len() == 0 && a.gathered(
            payload,
            false,
            cc,
        ).pending.len() == 0,
        a.kept(cc).len() > 0 ==> a.gathered(payload, false, cc) == extended(a.kept(cc), payload),
{
}

} // verus!
