//! What the bytes of a section mean, place by place.
use vstd::prelude::*;

use crate::bits::{bit, lemma_byte_bits, lemma_joined_bytes};
use crate::build::sections::entries_bytes;
use crate::bytes::{be16_at, be32_at, be32_bytes, lemma_be32_round_trip, low12, low13};
use crate::error::TsError;
use crate::psi::crc::crc_of;
use crate::psi::entries::{loop_entries, LoopEntry};
use crate::psi::section::{
    after_pointer, section_body, section_error, section_header, section_total, short_section_error,
    starts_with_section,
};

verus! {

/// The 16-bit number at `s[at]`.
pub open spec fn word_at(s: Seq<u8>, at: int) -> int {
    256 * s[at] + s[at + 1]
}

/// The PID at `s[at]`: the last 13 bits of two bytes.
pub open spec fn pid_at(s: Seq<u8>, at: int) -> int {
    256 * (s[at] % 32) + s[at + 1]
}

/// The length at `s[at]`: the last 12 bits of two bytes.
pub open spec fn length_at(s: Seq<u8>, at: int) -> int {
    256 * (s[at] % 16) + s[at + 1]
}

/// The CRC at `s[at]`.
pub open spec fn crc_at(s: Seq<u8>, at: int) -> int {
    16777216 * s[at] + 65536 * s[at + 1] + 256 * s[at + 2] + s[at + 3]
}

/// What is read from two and four bytes.
pub(crate) proof fn lemma_numbers_at(s: Seq<u8>, at: int)
    ensures
        be16_at(s, at) == word_at(s, at),
        low13(s[at], s[at + 1]) == pid_at(s, at),
        low12(s[at], s[at + 1]) == length_at(s, at),
        be32_at(s, at) == crc_at(s, at),
{
    lemma_joined_bytes(s[at], s[at + 1], s[at + 2], s[at + 3]);
}

/// A long-form section is accepted for table `table_id` if it has that id, at least the
/// eight bytes of its header and the four of its CRC, no more bytes announced than there
/// are, and the CRC of all bytes before the CRC. Its length counts from the fourth byte.
pub proof fn lemma_section_accepted(s: Seq<u8>, table_id: u8)
    ensures
        section_error(s, table_id) is None <==> {
            let total = 3 + length_at(s, 1);
            &&& s.len() >= 12
            &&& s[0] == table_id
            &&& 12 <= total <= s.len()
            &&& crc_of(s.subrange(0, total - 4)) == crc_at(s, total - 4)
        },
        section_total(s) == 3 + length_at(s, 1),
{
    lemma_numbers_at(s, 1);
    lemma_numbers_at(s, section_total(s) - 4);
}

/// The fields of a section header, by the places of their bytes: the number of the
/// table in bytes 3 and 4, version and `current_next_indicator` in byte 5, the number of
/// the section in byte 6 and that of the last one in byte 7. The body follows, up to
/// the CRC.
pub proof fn lemma_section_fields(s: Seq<u8>)
    requires
        s.len() >= 12,
    ensures
        ({
            let h = section_header(s);
            &&& h.table_id_extension == 256 * s[3] + s[4]
            &&& h.version_number == s[5] / 2 % 32
            &&& h.current_next_indicator == (s[5] % 2 == 1)
            &&& h.section_number == s[6]
            &&& h.last_section_number == s[7]
        }),
        12 <= section_total(s) <= s.len() ==> section_body(s) == s.subrange(
            8,
            length_at(s, 1) - 1,
        ),
{
    lemma_numbers_at(s, 3);
    lemma_numbers_at(s, 1);
    lemma_byte_bits(s[5]);
}

/// A section that is put together from its fields, whatever they are, and sealed with
/// its CRC is accepted and read with these fields: section `n` of those up to `m` is
/// read as that.
pub proof fn lemma_section_reads_its_fields(
    s: Seq<u8>,
    table_id: u8,
    ext: u16,
    version: u8,
    current: bool,
    n: u8,
    m: u8,
    body: Seq<u8>,
)
    requires
        body.len() <= 4086,
        version < 32,
        s.len() == 12 + body.len(),
        s[0] == table_id,
        length_at(s, 1) == 9 + body.len(),
        s[3] == ext / 256,
        s[4] == ext % 256,
        s[5] % 64 == 2 * version + bit(current),
        s[6] == n,
        s[7] == m,
        s.subrange(8, 8 + body.len() as int) == body,
        s.skip(8 + body.len() as int) == be32_bytes(crc_of(s.take(8 + body.len() as int))),
    ensures
        section_error(s, table_id) is None,
        ({
            let h = section_header(s);
            &&& h.table_id_extension == ext
            &&& h.version_number == version
            &&& h.current_next_indicator == current
            &&& h.section_number == n
            &&& h.last_section_number == m
        }),
        section_body(s) == body,
{
    lemma_section_accepted(s, table_id);
    lemma_section_fields(s);
    let k = 8 + body.len() as int;
    let c = crc_of(s.take(k));
    assert(s.subrange(0, k) =~= s.take(k));
    let tail = s.skip(k);
    assert(s[k] == tail[0] && s[k + 1] == tail[1] && s[k + 2] == tail[2] && s[k + 3] == tail[3]);
    lemma_be32_round_trip(c, s, k);
    lemma_numbers_at(s, k);
}

/// A short-form section needs three bytes and as many as it announces after them.
pub proof fn lemma_short_section_accepted(s: Seq<u8>)
    ensures
        short_section_error(s) is None <==> s.len() >= 3 && 3 + length_at(s, 1) <= s.len(),
{
    lemma_numbers_at(s, 1);
}

/// A payload that starts a unit holds sections behind the bytes its pointer field
/// skips. A section starts where `table_id` is not the stuffing 0xFF and is whole.
pub proof fn lemma_pointer_skips(payload: Seq<u8>, s: Seq<u8>)
    ensures
        payload.len() > payload[0] ==> after_pointer(payload) == payload.skip(1 + payload[0]),
        payload.len() == 0 || payload.len() <= payload[0] ==> after_pointer(payload).len() == 0,
        starts_with_section(s) <==> s.len() >= 3 && s[0] != 255 && s.len() >= 3 + length_at(s, 1),
{
    lemma_numbers_at(s, 1);
}

/// The entries of a loop are the loop: joined, they are its bytes, but for a rest too
/// short for another head. Every head has its length, and the last 12 bits of it count
/// the descriptor bytes behind it.
pub proof fn lemma_loop_is_its_entries(l: Seq<u8>, h: int)
    requires
        h >= 2,
    ensures
        match loop_entries(l, h) {
            Ok(es) => {
                let n = entries_bytes(es).len() as int;
                &&& n <= l.len() < n + h
                &&& entries_bytes(es) == l.take(n)
                &&& forall|i: int|
                    0 <= i < es.len() ==> (#[trigger] es[i]).head.len() == h
                        && es[i].descriptors.len() == length_at(es[i].head, h - 2)
            },
            Err(_) => l.len() >= h,
        },
    decreases l.len(),
{
    if l.len() >= h {
        lemma_numbers_at(l, h - 2);
        let n = length_at(l, h - 2);
        if h + n <= l.len() {
            lemma_loop_is_its_entries(l.skip(h + n), h);
            match loop_entries(l.skip(h + n), h) {
                Ok(rest) => {
                    let e = LoopEntry { head: l.take(h), descriptors: l.subrange(h, h + n) };
                    let es = seq![e] + rest;
                    lemma_entries_joined(e, rest);
                    let k = entries_bytes(rest).len() as int;
                    assert(entries_bytes(es) =~= l.take(h + n + k)) by {
                        assert(l.take(h) + l.subrange(h, h + n) + l.skip(h + n).take(k) =~= l.take(
                            h + n + k,
                        ));
                    }
                },
                Err(_) => {},
            }
        }
    } else {
        assert(entries_bytes(Seq::empty()) =~= l.take(0));
    }
}

/// The bytes of one entry and others after it.
proof fn lemma_entries_joined(e: LoopEntry, rest: Seq<LoopEntry>)
    ensures
        entries_bytes(seq![e] + rest) == e.head + e.descriptors + entries_bytes(rest),
    decreases rest.len(),
{
    let all = seq![e] + rest;
    if rest.len() == 0 {
        assert(all.drop_last() =~= Seq::<LoopEntry>::empty());
        assert(all.last() == e);
        assert(entries_bytes(Seq::<LoopEntry>::empty()).len() == 0);
        assert(rest =~= Seq::<LoopEntry>::empty());
        assert(entries_bytes(all) =~= e.head + e.descriptors);
        assert(e.head + e.descriptors + entries_bytes(rest) =~= e.head + e.descriptors);
    } else {
        lemma_entries_joined(e, rest.drop_last());
        assert(all.drop_last() =~= seq![e] + rest.drop_last());
        assert(all.last() == rest.last());
        assert(entries_bytes(all) =~= e.head + e.descriptors + entries_bytes(rest));
    }
}

/// A loop is refused where an entry announces more descriptor bytes than are left.
pub proof fn lemma_loop_overrun(l: Seq<u8>, h: int)
    requires
        h >= 2,
        l.len() >= h,
        h + length_at(l, h - 2) > l.len(),
        l.len() <= usize::MAX,
    ensures
        loop_entries(l, h) == Err::<Seq<LoopEntry>, TsError>(
            TsError::SectionLengthOverrun {
                claimed: length_at(l, h - 2) as usize,
                have: (l.len() - h) as usize,
            },
        ),
{
    lemma_numbers_at(l, h - 2);
}

/// Why a section is refused: too short for a header, of another table, announcing more than
/// there is, too short for a CRC, with another CRC than its bytes have, and only then with
/// too little for a header and a CRC.
pub proof fn lemma_section_refused(s: Seq<u8>, table_id: u8)
    requires
        s.len() <= usize::MAX,
    ensures
        ({
            let n = length_at(s, 1);
            let e = section_error(s, table_id);
            &&& s.len() < 12 ==> e == Some(
                TsError::Truncated {
                    what: "PSI section header",
                    have: s.len() as usize,
                    need: 12,
                },
            )
            &&& s.len() >= 12 && s[0] != table_id ==> e == Some(
                TsError::Unsupported("PSI table_id does not match expected value"),
            )
            &&& s.len() >= 12 && s[0] == table_id && n + 3 > s.len() ==> e == Some(
                TsError::SectionLengthOverrun {
                    claimed: n as usize,
                    have: (s.len() - 3) as usize,
                },
            )
            &&& s.len() >= 12 && s[0] == table_id && 1 <= n <= s.len() - 3 ==> {
                let c = crc_of(s.subrange(0, n - 1));
                &&& c != crc_at(s, n - 1) ==> e == Some(
                    TsError::PsiCrcMismatch { header: crc_at(s, n - 1) as u32, computed: c },
                )
                &&& c == crc_at(s, n - 1) && n < 9 ==> e == Some(
                    TsError::Truncated {
                        what: "PSI section header",
                        have: (n + 3) as usize,
                        need: 12,
                    },
                )
            }
        }),
{
    lemma_numbers_at(s, 1);
    lemma_numbers_at(s, section_total(s) - 4);
}

} // verus!
