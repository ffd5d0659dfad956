//! Reassembly of sections that run over several packets of one PID.
use vstd::prelude::*;
use vstd::slice::slice_to_vec;

use crate::bytes::read_low12;
use crate::error::TsError;
use crate::psi::entries::overrun;
use crate::psi::section::{section_total, MAX_PSI_SECTION_LEN};

verus! {

/// What joining the pending bytes with more bytes, or cutting up a run of
/// sections, gives.
#[verifier::ext_equal]
pub struct Gathered {
    /// The whole sections, in order.
    pub sections: Seq<Seq<u8>>,
    /// The error that ended the work.
    pub error: Option<TsError>,
    /// Bytes of a section that is not whole yet.
    pub pending: Seq<u8>,
}

/// Join the bytes `pending` of a section with `bytes`. Bytes past the section's
/// end are dropped.
pub open spec fn extended(pending: Seq<u8>, bytes: Seq<u8>) -> Gathered {
    let full = pending + bytes;
    let total = section_total(full);
    if full.len() < 3 {
        Gathered { sections: Seq::empty(), error: None, pending: full }
    } else if total > MAX_PSI_SECTION_LEN {
        Gathered {
            sections: Seq::empty(),
            error: Some(overrun(total - 3, full.len() - 3)),
            pending: Seq::empty(),
        }
    } else if full.len() >= total {
        Gathered { sections: seq![full.take(total)], error: None, pending: Seq::empty() }
    } else {
        Gathered { sections: Seq::empty(), error: None, pending: full }
    }
}

/// Cut `rest` into sections. Stuffing, a section that is not whole and one over
/// the limit end the run.
pub open spec fn cut(rest: Seq<u8>) -> Gathered
    decreases rest.len(),
{
    let total = section_total(rest);
    if rest.len() == 0 || rest[0] == 0xFF {
        Gathered { sections: Seq::empty(), error: None, pending: Seq::empty() }
    } else if rest.len() < 3 {
        Gathered { sections: Seq::empty(), error: None, pending: rest }
    } else if total > MAX_PSI_SECTION_LEN {
        Gathered {
            sections: Seq::empty(),
            error: Some(overrun(total - 3, rest.len() - 3)),
            pending: Seq::empty(),
        }
    } else if rest.len() >= total {
        let more = cut(rest.skip(total));
        Gathered {
            sections: seq![rest.take(total)] + more.sections,
            error: more.error,
            pending: more.pending,
        }
    } else {
        Gathered { sections: Seq::empty(), error: None, pending: rest }
    }
}

/// The state of a reassembly.
#[verifier::ext_equal]
pub struct Assembly {
    /// Bytes of the section in flight; empty when there is none.
    pub pending: Seq<u8>,
    /// Continuity counter of the last packet.
    pub last_cc: Option<u8>,
}

impl Assembly {
    /// The section in flight is not whole yet and within the limit.
    pub open spec fn wf(self) -> bool {
        self.pending.len() < 3 || self.pending.len() < section_total(self.pending)
            <= MAX_PSI_SECTION_LEN
    }

    /// What is pending when a packet with counter `cc` arrives: a skipped
    /// counter discards it.
    pub open spec fn kept(self, cc: u8) -> Seq<u8> {
        if self.last_cc is Some && cc & 0x0F != ((self.last_cc->0 + 1) as u8) & 0x0F {
            Seq::empty()
        } else {
            self.pending
        }
    }

    /// What a packet gathers.
    pub open spec fn gathered(self, payload: Seq<u8>, pusi: bool, cc: u8) -> Gathered {
        let kept = self.kept(cc);
        let none = Gathered { sections: Seq::empty(), error: None, pending: kept };
        if !pusi {
            if kept.len() == 0 {
                none
            } else {
                extended(kept, payload)
            }
        } else if payload.len() == 0 {
            none
        } else if payload[0] > payload.len() - 1 {
            Gathered { sections: Seq::empty(), error: None, pending: Seq::empty() }
        } else {
            let tail = payload.subrange(1, 1 + payload[0]);
            let first = if kept.len() == 0 { none } else { extended(kept, tail) };
            let more = cut(payload.skip(1 + payload[0] as int));
            if first.error is Some {
                first
            } else {
                Gathered { sections: first.sections + more.sections, ..more }
            }
        }
    }

    /// The state after a packet.
    pub open spec fn fed(self, payload: Seq<u8>, pusi: bool, cc: u8) -> Assembly {
        Assembly { pending: self.gathered(payload, pusi, cc).pending, last_cc: Some(cc & 0x0F) }
    }
}

/// The bytes of each of `v`.
pub open spec fn bytes_of(v: Seq<Vec<u8>>) -> Seq<Seq<u8>> {
    v.map_values(|x: Vec<u8>| x@)
}

/// Reassembler of the sections of one PID.
#[derive(Debug)]
pub struct PsiSectionAssembler {
    in_flight: Vec<u8>,
    last_cc: Option<u8>,
}

impl View for PsiSectionAssembler {
    type V = Assembly;

    closed spec fn view(&self) -> Assembly {
        Assembly { pending: self.in_flight@, last_cc: self.last_cc }
    }
}

impl Default for PsiSectionAssembler {
    fn default() -> (r: Self)
        ensures
            r@ == (Assembly { pending: Seq::empty(), last_cc: None }),
    {
        PsiSectionAssembler { in_flight: Vec::new(), last_cc: None }
    }
}

impl PsiSectionAssembler {
    /// An empty reassembler.
    pub fn new() -> (r: Self)
        ensures
            r@ == (Assembly { pending: Seq::empty(), last_cc: None }),
    {
        PsiSectionAssembler { in_flight: Vec::new(), last_cc: None }
    }

    /// Forget everything, as for a `discontinuity_indicator` or a restarted
    /// stream.
    pub fn reset(&mut self)
        ensures
            final(self)@ == (Assembly { pending: Seq::empty(), last_cc: None }),
    {
        self.in_flight = Vec::new();
        self.last_cc = None;
    }

    /// Take in the payload of one packet, its `payload_unit_start_indicator` and
    /// its continuity counter. Returns the sections that became whole, each from
    /// `table_id` through the CRC.
    pub fn feed(&mut self, payload: &[u8], pusi: bool, continuity_counter: u8) -> (r: Result<
        Vec<Vec<u8>>,
        TsError,
    >)
        ensures
            final(self)@ == old(self)@.fed(payload@, pusi, continuity_counter),
            match r {
                Ok(v) => {
                    let g = old(self)@.gathered(payload@, pusi, continuity_counter);
                    g.error is None && bytes_of(v@) == g.sections
                },
                Err(e) => old(self)@.gathered(payload@, pusi, continuity_counter).error == Some(e),
            },
    {
        let cc: u8 = continuity_counter & 0x0F;
        if let Some(prev) = self.last_cc {
            let next: u8 = #[verifier::truncate] ((prev as u16 + 1) as u8);
            if cc != next & 0x0F {
                self.in_flight = Vec::new();
            }
        }
        self.last_cc = Some(cc);
        let ghost kept = old(self)@.kept(continuity_counter);
        assert(self.in_flight@ =~= kept);
        let mut out: Vec<Vec<u8>> = Vec::new();
        if !pusi {
            if self.in_flight.len() > 0 {
                self.extend_in_flight(payload, &mut out)?;
            }
            assert(bytes_of(out@) =~= old(self)@.gathered(
                payload@,
                pusi,
                continuity_counter,
            ).sections);
            return Ok(out);
        }
        if payload.len() == 0 {
            assert(bytes_of(out@) =~= Seq::<Seq<u8>>::empty());
            return Ok(out);
        }
        let ptr: usize = payload[0] as usize;
        if ptr > payload.len() - 1 {
            self.in_flight = Vec::new();
            assert(bytes_of(out@) =~= Seq::<Seq<u8>>::empty());
            return Ok(out);
        }
        if self.in_flight.len() > 0 {
            self.extend_in_flight(&payload[1..1 + ptr], &mut out)?;
            self.in_flight = Vec::new();
        }
        let ghost first = bytes_of(out@);
        let rest: &[u8] = &payload[1 + ptr..payload.len()];
        assert(rest@ =~= payload@.skip(1 + ptr));
        assert(first =~= first + Seq::<Seq<u8>>::empty());
        self.cut_sections(rest, &mut out)?;
        assert(bytes_of(out@) =~= old(self)@.gathered(payload@, pusi, continuity_counter).sections);
        Ok(out)
    }

    /// Join the section in flight with `bytes`.
    fn extend_in_flight(&mut self, bytes: &[u8], out: &mut Vec<Vec<u8>>) -> (r: Result<(), TsError>)
        ensures
            final(self).last_cc == old(self).last_cc,
            final(self).in_flight@ == extended(old(self).in_flight@, bytes@).pending,
            bytes_of(final(out)@) == bytes_of(old(out)@) + extended(
                old(self).in_flight@,
                bytes@,
            ).sections,
            match r {
                Ok(_) => extended(old(self).in_flight@, bytes@).error is None,
                Err(e) => extended(old(self).in_flight@, bytes@).error == Some(e),
            },
    {
        self.in_flight.extend_from_slice(bytes);
        let ghost full = self.in_flight@;
        assert(full =~= old(self).in_flight@ + bytes@);
        assert(bytes_of(out@) + Seq::<Seq<u8>>::empty() =~= bytes_of(out@));
        if self.in_flight.len() < 3 {
            return Ok(());
        }
        let section_length: usize = read_low12(self.in_flight.as_slice(), 1);
        let total: usize = 3 + section_length;
        if total > MAX_PSI_SECTION_LEN {
            let have: usize = self.in_flight.len() - 3;
            self.in_flight = Vec::new();
            return Err(TsError::SectionLengthOverrun { claimed: section_length, have });
        }
        if self.in_flight.len() >= total {
            let done: Vec<u8> = slice_to_vec(&self.in_flight.as_slice()[0..total]);
            assert(done@ =~= full.take(total as int));
            out.push(done);
            assert(bytes_of(out@) =~= bytes_of(old(out)@) + seq![done@]);
            self.in_flight = Vec::new();
        }
        Ok(())
    }

    /// Cut freshly starting sections out of `bytes`; keep one that is not whole.
    fn cut_sections(&mut self, bytes: &[u8], out: &mut Vec<Vec<u8>>) -> (r: Result<(), TsError>)
        requires
            old(self).in_flight@.len() == 0,
        ensures
            final(self).last_cc == old(self).last_cc,
            final(self).in_flight@ == cut(bytes@).pending,
            bytes_of(final(out)@) == bytes_of(old(out)@) + cut(bytes@).sections,
            match r {
                Ok(_) => cut(bytes@).error is None,
                Err(e) => cut(bytes@).error == Some(e),
            },
    {
        let ghost before = bytes_of(out@);
        let mut i: usize = 0;
        assert(bytes@.skip(0) =~= bytes@);
        while i < bytes.len() && bytes[i] != 0xFF
            invariant_except_break
                self.in_flight@.len() == 0,
                cut(bytes@).pending == cut(bytes@.skip(i as int)).pending,
                before + cut(bytes@).sections == bytes_of(out@) + cut(
                    bytes@.skip(i as int),
                ).sections,
            invariant
                self.last_cc == old(self).last_cc,
                i <= bytes@.len(),
                before == bytes_of(old(out)@),
                cut(bytes@).error == cut(bytes@.skip(i as int)).error,
            ensures
                self.in_flight@ == cut(bytes@).pending,
                bytes_of(out@) == before + cut(bytes@).sections,
                cut(bytes@).error is None,
            decreases bytes@.len() - i,
        {
            let ghost rest = bytes@.skip(i as int);
            assert(bytes_of(out@) + Seq::<Seq<u8>>::empty() =~= bytes_of(out@));
            let left: usize = bytes.len() - i;
            if left < 3 {
                self.in_flight = slice_to_vec(&bytes[i..bytes.len()]);
                assert(self.in_flight@ =~= rest);
                break ;
            }
            let section_length: usize = read_low12(bytes, i + 1);
            let total: usize = 3 + section_length;
            if total > MAX_PSI_SECTION_LEN {
                return Err(
                    TsError::SectionLengthOverrun { claimed: section_length, have: left - 3 },
                );
            }
            if left < total {
                self.in_flight = slice_to_vec(&bytes[i..bytes.len()]);
                assert(self.in_flight@ =~= rest);
                break ;
            }
            let section: Vec<u8> = slice_to_vec(&bytes[i..i + total]);
            let ghost prior = bytes_of(out@);
            out.push(section);
            proof {
                let tail = bytes@.skip(i + total);
                assert(rest.skip(total as int) =~= tail);
                assert(section@ =~= rest.take(total as int));
                assert(bytes_of(out@) =~= prior + seq![section@]);
                assert(prior + (seq![section@] + cut(tail).sections) =~= bytes_of(out@) + cut(
                    tail,
                ).sections);
            }
            i = i + total;
        }
        Ok(())
    }
}

/// A reassembly never holds more than the limit, nor a whole section.
pub proof fn lemma_assembly_bounded(a: Assembly, payload: Seq<u8>, pusi: bool, cc: u8)
    requires
        a.wf(),
    ensures
        a.fed(payload, pusi, cc).wf(),
{
    let kept = a.kept(cc);
    if pusi && payload.len() > 0 && payload[0] <= payload.len() - 1 {
        lemma_cut_pending(payload.skip(1 + payload[0] as int));
    }
}

proof fn lemma_cut_pending(rest: Seq<u8>)
    ensures
        (Assembly { pending: cut(rest).pending, last_cc: None }).wf(),
    decreases rest.len(),
{
    if rest.len() >= 3 && rest[0] != 0xFF && section_total(rest) <= MAX_PSI_SECTION_LEN
        && rest.len() >= section_total(rest) {
        lemma_cut_pending(rest.skip(section_total(rest)));
    }
}

/// The continuation packets `chunks` joined.
pub open spec fn joined(chunks: Seq<Seq<u8>>) -> Seq<u8>
    decreases chunks.len(),
{
    if chunks.len() == 0 {
        Seq::empty()
    } else {
        chunks[0] + joined(chunks.skip(1))
    }
}

/// The sections that continuation packets with counters from `cc` on make whole.
pub open spec fn continued(a: Assembly, chunks: Seq<Seq<u8>>, cc: u8) -> Seq<Seq<u8>>
    decreases chunks.len(),
{
    if chunks.len() == 0 {
        Seq::empty()
    } else {
        a.gathered(chunks[0], false, cc).sections + continued(
            a.fed(chunks[0], false, cc),
            chunks.skip(1),
            ((cc + 1) % 16) as u8,
        )
    }
}

/// Those packets bring no section over the limit.
pub open spec fn continued_clean(a: Assembly, chunks: Seq<Seq<u8>>, cc: u8) -> bool
    decreases chunks.len(),
{
    chunks.len() == 0 || (a.gathered(chunks[0], false, cc).error is None && continued_clean(
        a.fed(chunks[0], false, cc),
        chunks.skip(1),
        ((cc + 1) % 16) as u8,
    ))
}

/// `s` is one whole section within the limit.
pub open spec fn is_section(s: Seq<u8>) -> bool {
    3 <= s.len() <= MAX_PSI_SECTION_LEN && s.len() == section_total(s) && s[0] != 0xFF
}

/// A section that starts a packet and continues over further ones, with
/// consecutive counters and nothing but fill after it in the last packet, is
/// gathered as it was, whatever went before.
pub proof fn lemma_section_reassembles(
    a: Assembly,
    first: Seq<u8>,
    chunks: Seq<Seq<u8>>,
    fill: Seq<u8>,
    s: Seq<u8>,
    cc: u8,
)
    requires
        a.wf(),
        cc < 16,
        is_section(s),
        first.len() > 0,
        first + joined(chunks) == s + fill,
        chunks.len() == 0 ==> fill.len() == 0 || fill[0] == 0xFF,
        chunks.len() > 0 ==> first.len() + joined(chunks.drop_last()).len() < s.len(),
    ensures
        ({
            let start = seq![0u8] + first;
            a.gathered(start, true, cc).sections + continued(
                a.fed(start, true, cc),
                chunks,
                ((cc + 1) % 16) as u8,
            ) == seq![s] && a.gathered(start, true, cc).error is None && continued_clean(
                a.fed(start, true, cc),
                chunks,
                ((cc + 1) % 16) as u8,
            )
        }),
{
    let start = seq![0u8] + first;
    let g = a.gathered(start, true, cc);
    assert(start.skip(1) =~= first);
    let kept = a.kept(cc);
    let tail = start.subrange(1, 1);
    assert(kept + tail =~= kept);
    assert(first[0] == (first + joined(chunks))[0]);
    if chunks.len() == 0 {
        assert(first + joined(chunks) =~= first);
        assert(first[1] == s[1] && first[2] == s[2]);
        assert(first.take(s.len() as int) =~= s);
        assert(first.skip(s.len() as int) =~= fill);
        assert(cut(fill).sections =~= Seq::empty());
        assert(g.sections =~= seq![s]);
        assert(continued(a.fed(start, true, cc), chunks, ((cc + 1) % 16) as u8) =~= Seq::empty());
    } else {
        assert(joined(chunks.drop_last()).len() >= 0);
        let k = first.len() as int;
        assert(first =~= (first + joined(chunks)).take(k));
        assert((s + fill).take(k) =~= s.take(k));
        assert(cut(first).pending == first && cut(first).sections =~= Seq::empty());
        assert(g.sections =~= Seq::empty());
        let b = a.fed(start, true, cc);
        assert(cc & 0x0F == cc) by (bit_vector)
            requires
                cc < 16,
        ;
        lemma_continuation(b, chunks, fill, s, cc);
    }
    assert(Seq::<Seq<u8>>::empty() + seq![s] =~= seq![s]);
    assert(seq![s] + Seq::<Seq<u8>>::empty() =~= seq![s]);
}

proof fn lemma_continuation(
    b: Assembly,
    chunks: Seq<Seq<u8>>,
    fill: Seq<u8>,
    s: Seq<u8>,
    prev: u8,
)
    requires
        prev < 16,
        b.last_cc == Some(prev),
        is_section(s),
        b.pending.len() > 0,
        chunks.len() > 0,
        b.pending + joined(chunks) == s + fill,
        b.pending.len() + joined(chunks.drop_last()).len() < s.len(),
    ensures
        continued(b, chunks, ((prev + 1) % 16) as u8) == seq![s],
        continued_clean(b, chunks, ((prev + 1) % 16) as u8),
    decreases chunks.len(),
{
    let cc = ((prev + 1) % 16) as u8;
    assert(cc & 0x0F == cc && ((prev + 1) as u8) & 0x0F == cc) by (bit_vector)
        requires
            prev < 16,
            cc == ((prev + 1) % 16) as u8,
    ;
    let full = b.pending + chunks[0];
    let rest = chunks.skip(1);
    let c = b.fed(chunks[0], false, cc);
    assert(full + joined(rest) =~= b.pending + joined(chunks));
    if chunks.len() == 1 {
        assert(joined(rest) =~= Seq::empty());
        assert(full =~= s + fill);
        assert(full.take(s.len() as int) =~= s);
        assert(full[1] == s[1] && full[2] == s[2]);
        assert(continued(c, rest, ((cc + 1) % 16) as u8) =~= Seq::empty());
        assert(continued_clean(c, rest, ((cc + 1) % 16) as u8));
        assert(seq![s] + Seq::<Seq<u8>>::empty() =~= seq![s]);
    } else {
        let dl = chunks.drop_last();
        assert(dl.skip(1) =~= rest.drop_last());
        assert(dl[0] == chunks[0]);
        assert(joined(dl) == chunks[0] + joined(rest.drop_last()));
        assert(full.len() < s.len());
        let k = full.len() as int;
        assert(full =~= (full + joined(rest)).take(k));
        assert((s + fill).take(k) =~= s.take(k));
        assert(c.pending == full);
        lemma_continuation(c, rest, fill, s, cc);
        assert(Seq::<Seq<u8>>::empty() + seq![s] =~= seq![s]);
    }
}

} // verus!
