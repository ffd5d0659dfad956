//! Byte-level reads and writes shared by the wire formats.
use vstd::prelude::*;

verus! {

/// Big-endian 16-bit value at `s[at]`.
pub open spec fn be16_at(s: Seq<u8>, at: int) -> u16 {
    ((s[at] as u16) << 8) | (s[at + 1] as u16)
}

/// Big-endian 32-bit value at `s[at]`.
pub open spec fn be32_at(s: Seq<u8>, at: int) -> u32 {
    ((s[at] as u32) << 24) | ((s[at + 1] as u32) << 16) | ((s[at + 2] as u32) << 8) | (s[at
        + 3] as u32)
}

/// 12-bit value in the low bits of two bytes.
pub open spec fn low12(hi: u8, lo: u8) -> u16 {
    (((hi & 0x0F) as u16) << 8) | (lo as u16)
}

/// 13-bit value in the low bits of two bytes.
pub open spec fn low13(hi: u8, lo: u8) -> u16 {
    (((hi & 0x1F) as u16) << 8) | (lo as u16)
}

/// Two bytes, most significant first.
pub open spec fn be16_bytes(v: u16) -> Seq<u8> {
    seq![((v >> 8) & 0xFF) as u8, (v & 0xFF) as u8]
}

/// Four bytes, most significant first.
pub open spec fn be32_bytes(v: u32) -> Seq<u8> {
    seq![
        ((v >> 24) & 0xFF) as u8,
        ((v >> 16) & 0xFF) as u8,
        ((v >> 8) & 0xFF) as u8,
        (v & 0xFF) as u8,
    ]
}

/// Read a big-endian 16-bit value.
pub(crate) fn read_be16(s: &[u8], at: usize) -> (r: u16)
    requires
        at + 2 <= s@.len(),
    ensures
        r == be16_at(s@, at as int),
{
    ((s[at] as u16) << 8) | (s[at + 1] as u16)
}

/// Read a big-endian 32-bit value.
pub(crate) fn read_be32(s: &[u8], at: usize) -> (r: u32)
    requires
        at + 4 <= s@.len(),
    ensures
        r == be32_at(s@, at as int),
{
    ((s[at] as u32) << 24) | ((s[at + 1] as u32) << 16) | ((s[at + 2] as u32) << 8) | (s[at
        + 3] as u32)
}

/// Read a 12-bit length.
pub(crate) fn read_low12(s: &[u8], at: usize) -> (r: usize)
    requires
        at + 2 <= s@.len(),
    ensures
        r == low12(s@[at as int], s@[at + 1]),
        r <= 0xFFF,
{
    let v: u16 = (((s[at] & 0x0F) as u16) << 8) | (s[at + 1] as u16);
    proof {
        lemma_low_bits(s@[at as int], s@[at + 1]);
    }
    v as usize
}

/// Read a 13-bit PID.
pub(crate) fn read_low13(s: &[u8], at: usize) -> (r: u16)
    requires
        at + 2 <= s@.len(),
    ensures
        r == low13(s@[at as int], s@[at + 1]),
{
    (((s[at] & 0x1F) as u16) << 8) | (s[at + 1] as u16)
}

/// Values read from the low bits of two bytes stay within 12 and 13 bits.
pub proof fn lemma_low_bits(hi: u8, lo: u8)
    by (bit_vector)
    ensures
        ((((hi & 0x0F) as u16) << 8) | (lo as u16)) <= 0xFFF,
        ((((hi & 0x1F) as u16) << 8) | (lo as u16)) <= 0x1FFF,
{
}

/// Append a 16-bit value.
pub(crate) fn push_be16(out: &mut Vec<u8>, v: u16)
    ensures
        final(out)@ == old(out)@ + be16_bytes(v),
{
    out.push(((v >> 8) & 0xFF) as u8);
    out.push((v & 0xFF) as u8);
    assert(out@ =~= old(out)@ + be16_bytes(v));
}

/// Append a 32-bit value.
pub(crate) fn push_be32(out: &mut Vec<u8>, v: u32)
    ensures
        final(out)@ == old(out)@ + be32_bytes(v),
{
    out.push(((v >> 24) & 0xFF) as u8);
    out.push(((v >> 16) & 0xFF) as u8);
    out.push(((v >> 8) & 0xFF) as u8);
    out.push((v & 0xFF) as u8);
    assert(out@ =~= old(out)@ + be32_bytes(v));
}

/// Big-endian values are read back as written.
pub proof fn lemma_be16_round_trip(v: u16, s: Seq<u8>, at: int)
    requires
        0 <= at,
        at + 2 <= s.len(),
        s.subrange(at, at + 2) == be16_bytes(v),
    ensures
        be16_at(s, at) == v,
{
    let w = s.subrange(at, at + 2);
    assert(s[at] == w[0] && s[at + 1] == w[1]);
    assert((((((v >> 8) & 0xFF) as u8) as u16) << 8) | (((v & 0xFF) as u8) as u16) == v)
        by (bit_vector);
}

/// Big-endian values are read back as written.
pub proof fn lemma_be32_round_trip(v: u32, s: Seq<u8>, at: int)
    requires
        0 <= at,
        at + 4 <= s.len(),
        s.subrange(at, at + 4) == be32_bytes(v),
    ensures
        be32_at(s, at) == v,
{
    let w = s.subrange(at, at + 4);
    assert(s[at] == w[0] && s[at + 1] == w[1] && s[at + 2] == w[2] && s[at + 3] == w[3]);
    assert((((((v >> 24) & 0xFF) as u8) as u32) << 24) | (((((v >> 16) & 0xFF) as u8) as u32) << 16)
        | (((((v >> 8) & 0xFF) as u8) as u32) << 8) | (((v & 0xFF) as u8) as u32) == v)
        by (bit_vector);
}

/// Where each of six parts stands in their concatenation.
pub proof fn lemma_concat_parts(
    a: Seq<u8>,
    b: Seq<u8>,
    c: Seq<u8>,
    d: Seq<u8>,
    e: Seq<u8>,
    f: Seq<u8>,
)
    ensures
        ({
            let w = a + b + c + d + e + f;
            let o1 = a.len() as int;
            let o2 = o1 + b.len();
            let o3 = o2 + c.len();
            let o4 = o3 + d.len();
            let o5 = o4 + e.len();
            &&& w.len() == o5 + f.len()
            &&& w.subrange(0, o1) == a
            &&& w.subrange(o1, o2) == b
            &&& w.subrange(o2, o3) == c
            &&& w.subrange(o3, o4) == d
            &&& w.subrange(o4, o5) == e
            &&& w.subrange(o5, o5 + f.len()) == f
        }),
{
    let w = a + b + c + d + e + f;
    let o1 = a.len() as int;
    let o2 = o1 + b.len();
    let o3 = o2 + c.len();
    let o4 = o3 + d.len();
    let o5 = o4 + e.len();
    assert(w.subrange(0, o1) =~= a);
    assert(w.subrange(o1, o2) =~= b);
    assert(w.subrange(o2, o3) =~= c);
    assert(w.subrange(o3, o4) =~= d);
    assert(w.subrange(o4, o5) =~= e);
    assert(w.subrange(o5, o5 + f.len()) =~= f);
}

} // verus!
