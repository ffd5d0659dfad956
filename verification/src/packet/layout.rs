//! Physical framings of a packet stream, and the walk over plain packets.
use vstd::prelude::*;

use crate::error::TsError;
use crate::packet::parse::{parse_packet_spec, TsPacket, TsPacketView, TS_PACKET_LEN, TS_SYNC_BYTE};

verus! {

/// How 188-byte packets are framed.
#[allow(non_camel_case_types)]
#[derive(Debug, Clone, Copy, PartialEq, Eq, Structural)]
pub enum TsPacketLayout {
    /// Plain 188-byte packets.
    STANDARD,
    /// 192-byte source packets: a 4-byte prefix before each packet.
    PREFIXED_192,
    /// 204-byte packets: a 16-byte trailer after each packet.
    TRAILER_204,
}

impl TsPacketLayout {
    /// Distance between consecutive packets.
    pub open spec fn size(self) -> nat {
        match self {
            TsPacketLayout::STANDARD => 188,
            TsPacketLayout::PREFIXED_192 => 192,
            TsPacketLayout::TRAILER_204 => 204,
        }
    }

    /// Position of the sync byte within a framed packet.
    pub open spec fn offset(self) -> nat {
        if self == TsPacketLayout::PREFIXED_192 { 4 } else { 0 }
    }

    /// Distance between consecutive packets.
    pub fn packet_size(&self) -> (r: usize)
        ensures
            r == self.size(),
    {
        match self {
            TsPacketLayout::STANDARD => 188,
            TsPacketLayout::PREFIXED_192 => 192,
            TsPacketLayout::TRAILER_204 => 204,
        }
    }

    /// Position of the sync byte within a framed packet.
    pub fn sync_offset(&self) -> (r: usize)
        ensures
            r == self.offset(),
    {
        match self {
            TsPacketLayout::PREFIXED_192 => 4,
            _ => 0,
        }
    }

    /// Number of whole framed packets in `b`.
    pub open spec fn count(self, b: Seq<u8>) -> nat {
        b.len() / self.size()
    }

    /// The 188 bytes of framed packet `i` of `b`.
    pub open spec fn packet(self, b: Seq<u8>, i: int) -> Seq<u8> {
        b.subrange(
            i * self.size() + self.offset(),
            i * self.size() + self.offset() + 188,
        )
    }

    /// `b` holds a whole framed packet, and each of its first eight (or all, if
    /// fewer) has the sync byte in place.
    pub open spec fn fits(self, b: Seq<u8>) -> bool {
        &&& self.count(b) >= 1
        &&& forall|i: int|
            0 <= i < self.count(b) && i < 8 ==> b[#[trigger] (i * self.size())
                + self.offset()] == 0x47
    }

    /// The 188-byte packet inside one framed packet.
    pub fn window<'a>(&self, chunk: &'a [u8]) -> (r: &'a [u8])
        requires
            self.offset() + 188 <= chunk@.len(),
        ensures
            r@ == chunk@.subrange(self.offset() as int, self.offset() as int + 188),
    {
        let at: usize = self.sync_offset();
        &chunk[at..at + TS_PACKET_LEN]
    }

    /// Framed packet `i` of `bytes`, as its 188 bytes.
    pub fn nth<'a>(&self, bytes: &'a [u8], i: usize) -> (r: &'a [u8])
        requires
            i < self.count(bytes@),
        ensures
            r@ == self.packet(bytes@, i as int),
            r@.len() == 188,
    {
        proof {
            lemma_frame_in_bounds(bytes@.len(), self.size(), i as nat);
            assert(bytes.len() == bytes@.len());
        }
        let size: usize = self.packet_size();
        let start: usize = i * size + self.sync_offset();
        &bytes[start..start + TS_PACKET_LEN]
    }

    fn matches(&self, bytes: &[u8]) -> (r: bool)
        ensures
            r == self.fits(bytes@),
    {
        let size: usize = self.packet_size();
        let at: usize = self.sync_offset();
        let n: usize = bytes.len() / size;
        if n == 0 {
            return false;
        }
        let mut i: usize = 0;
        while i < n && i < 8
            invariant
                size == self.size(),
                at == self.offset(),
                n == self.count(bytes@),
                i <= n,
                forall|j: int|
                    0 <= j < i ==> bytes@[#[trigger] (j * self.size()) + self.offset()] == 0x47,
            decreases n - i,
        {
            proof {
                lemma_frame_in_bounds(bytes@.len(), self.size(), i as nat);
            }
            if bytes[i * size + at] != TS_SYNC_BYTE {
                proof {
                    let k: int = i as int;
                    assert(bytes@[(k * self.size()) + self.offset()] != 0x47);
                }
                return false;
            }
            i += 1;
        }
        true
    }
}

/// A frame with index below the frame count lies inside the buffer.
pub proof fn lemma_frame_in_bounds(len: nat, size: nat, i: nat)
    requires
        size > 0,
        i < len / size,
    ensures
        i * size + size <= len,
{
    assert((i + 1) * size <= len) by (nonlinear_arith)
        requires
            size > 0,
            i + 1 <= len / size,
    ;
    assert((i + 1) * size == i * size + size) by (nonlinear_arith);
}

/// The framing of `b`: the first of plain, prefixed and trailed that fits.
pub open spec fn detected_layout(b: Seq<u8>) -> Option<TsPacketLayout> {
    if TsPacketLayout::STANDARD.fits(b) {
        Some(TsPacketLayout::STANDARD)
    } else if TsPacketLayout::PREFIXED_192.fits(b) {
        Some(TsPacketLayout::PREFIXED_192)
    } else if TsPacketLayout::TRAILER_204.fits(b) {
        Some(TsPacketLayout::TRAILER_204)
    } else {
        None
    }
}

/// Classify the physical framing of `bytes` by its sync-byte grid.
pub fn detect_packet_layout(bytes: &[u8]) -> (r: Option<TsPacketLayout>)
    ensures
        r == detected_layout(bytes@),
{
    if TsPacketLayout::STANDARD.matches(bytes) {
        Some(TsPacketLayout::STANDARD)
    } else if TsPacketLayout::PREFIXED_192.matches(bytes) {
        Some(TsPacketLayout::PREFIXED_192)
    } else if TsPacketLayout::TRAILER_204.matches(bytes) {
        Some(TsPacketLayout::TRAILER_204)
    } else {
        None
    }
}

/// Walk over contiguous 188-byte packets.
#[derive(Debug)]
pub struct TsPacketIter<'a> {
    rest: &'a [u8],
    halted: bool,
}

impl<'a> TsPacketIter<'a> {
    /// Bytes not walked over yet.
    pub closed spec fn remaining(self) -> Seq<u8> {
        self.rest@
    }

    /// A malformed packet was seen.
    pub closed spec fn is_halted(self) -> bool {
        self.halted
    }

    /// The next packet, or `None` at a truncated tail or once a malformed packet
    /// was handed out.
    pub fn next(&mut self) -> (r: Option<Result<TsPacket<'a>, TsError>>)
        ensures
            r is None <==> old(self).is_halted() || old(self).remaining().len() < 188,
            r is None ==> final(self).remaining() == old(self).remaining()
                && final(self).is_halted() == old(self).is_halted(),
            r is Some ==> {
                &&& final(self).remaining() == old(self).remaining().skip(188)
                &&& final(self).is_halted() == r->0 is Err
                &&& match r->0 {
                    Ok(p) => parse_packet_spec(old(self).remaining().take(188)) == Ok::<
                        TsPacketView,
                        TsError,
                    >(p@),
                    Err(e) => parse_packet_spec(old(self).remaining().take(188)) == Err::<
                        TsPacketView,
                        TsError,
                    >(e),
                }
            },
    {
        if self.halted || self.rest.len() < TS_PACKET_LEN {
            return None;
        }
        let head: &'a [u8] = &self.rest[0..TS_PACKET_LEN];
        assert(head@ =~= self.rest@.take(188));
        self.rest = &self.rest[TS_PACKET_LEN..self.rest.len()];
        assert(self.rest@ =~= old(self).rest@.skip(188));
        let parsed: Result<TsPacket<'a>, TsError> = TsPacket::parse(head);
        if parsed.is_err() {
            self.halted = true;
        }
        Some(parsed)
    }
}

/// Walk a contiguous byte slice of 188-byte packets.
///
/// Ends at a truncated tail, and after the first malformed packet once its
/// error was handed out.
pub fn iter_packets(bytes: &[u8]) -> (r: TsPacketIter<'_>)
    ensures
        r.remaining() == bytes@,
        !r.is_halted(),
{
    TsPacketIter { rest: bytes, halted: false }
}

} // verus!
