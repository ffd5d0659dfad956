//! Loops whose entries are a fixed head, the last 12 bits of which count the
//! descriptor bytes that follow it.
use vstd::prelude::*;

use crate::bytes::{low12, read_low12};
use crate::error::TsError;

verus! {

/// One entry of such a loop.
#[verifier::ext_equal]
pub struct LoopEntry {
    /// The fixed head, its descriptor length included.
    pub head: Seq<u8>,
    /// The descriptor bytes.
    pub descriptors: Seq<u8>,
}

/// The error of a length `claimed` with only `have` bytes left.
pub open spec fn overrun(claimed: int, have: int) -> TsError {
    TsError::SectionLengthOverrun { claimed: claimed as usize, have: have as usize }
}

/// The entries of loop `l` with heads of `h` bytes. Bytes too few for another
/// head are ignored.
pub open spec fn loop_entries(l: Seq<u8>, h: int) -> Result<Seq<LoopEntry>, TsError>
    decreases l.len(),
{
    if h < 2 || l.len() < h {
        Ok(Seq::empty())
    } else {
        let n = low12(l[h - 2], l[h - 1]) as int;
        if h + n > l.len() {
            Err(overrun(n, l.len() - h))
        } else {
            match loop_entries(l.skip(h + n), h) {
                Ok(rest) => Ok(
                    seq![LoopEntry { head: l.take(h), descriptors: l.subrange(h, h + n) }] + rest,
                ),
                Err(e) => Err(e),
            }
        }
    }
}

/// The slices of one loop entry.
#[derive(Clone, Copy)]
pub(crate) struct EntrySlices<'a> {
    pub head: &'a [u8],
    pub descriptors: &'a [u8],
}

impl<'a> EntrySlices<'a> {
    /// The entry in question.
    pub(crate) open spec fn entry(self) -> LoopEntry {
        LoopEntry { head: self.head@, descriptors: self.descriptors@ }
    }
}

/// The entries that `v` holds.
pub(crate) open spec fn entries_of(v: Seq<EntrySlices<'_>>) -> Seq<LoopEntry> {
    v.map_values(|e: EntrySlices<'_>| e.entry())
}

/// Cut a loop into its entries.
pub(crate) fn split_loop<'a>(l: &'a [u8], h: usize) -> (r: Result<Vec<EntrySlices<'a>>, TsError>)
    requires
        2 <= h <= 16,
        l@.len() <= 4095,
    ensures
        match r {
            Ok(v) => {
                &&& loop_entries(l@, h as int) == Ok::<_, TsError>(entries_of(v@))
                &&& forall|i: int| 0 <= i < v@.len() ==> (#[trigger] v@[i]).head@.len() == h
            },
            Err(e) => loop_entries(l@, h as int) == Err::<Seq<LoopEntry>, _>(e),
        },
{
    let mut out: Vec<EntrySlices<'a>> = Vec::new();
    let mut i: usize = 0;
    assert(l@.skip(0) =~= l@);
    while l.len() - i >= h
        invariant
            2 <= h <= 16,
            l@.len() <= 4095,
            i <= l@.len(),
            forall|j: int| 0 <= j < out@.len() ==> (#[trigger] out@[j]).head@.len() == h,
            match loop_entries(l@.skip(i as int), h as int) {
                Ok(rest) => loop_entries(l@, h as int) == Ok::<_, TsError>(
                    entries_of(out@) + rest,
                ),
                Err(e) => loop_entries(l@, h as int) == Err::<Seq<LoopEntry>, _>(e),
            },
        decreases l@.len() - i,
    {
        let ghost rest = l@.skip(i as int);
        let n: usize = read_low12(l, i + h - 2);
        if n > l.len() - i - h {
            return Err(TsError::SectionLengthOverrun { claimed: n, have: l.len() - i - h });
        }
        let head: &'a [u8] = &l[i..i + h];
        let descriptors: &'a [u8] = &l[i + h..i + h + n];
        let e: EntrySlices<'a> = EntrySlices { head, descriptors };
        let ghost before = entries_of(out@);
        out.push(e);
        proof {
            assert(head@ =~= rest.take(h as int));
            assert(descriptors@ =~= rest.subrange(h as int, h + n));
            assert(rest.skip(h + n) =~= l@.skip(i + h + n));
            assert(entries_of(out@) =~= before.push(e.entry()));
            if loop_entries(rest.skip(h + n), h as int) is Ok {
                let tail = loop_entries(rest.skip(h + n), h as int)->Ok_0;
                assert(before + (seq![e.entry()] + tail) =~= entries_of(out@) + tail);
            }
        }
        i = i + h + n;
    }
    assert(entries_of(out@) + Seq::<LoopEntry>::empty() =~= entries_of(out@));
    Ok(out)
}

} // verus!
