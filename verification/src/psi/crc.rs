//! CRC-32/MPEG-2: polynomial 0x04C11DB7, initial value all ones, most
//! significant bit first, no reflection, no final inversion.
use vstd::prelude::*;

use crate::bytes::be32_bytes;

verus! {

/// One shift of the register.
pub open spec fn crc_shift(crc: u32) -> u32 {
    if crc & 0x8000_0000 != 0 {
        (crc << 1) ^ 0x04C1_1DB7
    } else {
        crc << 1
    }
}

/// `n` shifts of the register.
pub open spec fn crc_shifts(crc: u32, n: nat) -> u32
    decreases n,
{
    if n == 0 {
        crc
    } else {
        crc_shift(crc_shifts(crc, (n - 1) as nat))
    }
}

/// The register after one more byte.
pub open spec fn crc_step(crc: u32, b: u8) -> u32 {
    crc_shifts(crc ^ ((b as u32) << 24), 8)
}

/// The register after the bytes `s`, from the value `init`.
pub open spec fn crc_from(init: u32, s: Seq<u8>) -> u32
    decreases s.len(),
{
    if s.len() == 0 {
        init
    } else {
        crc_step(crc_from(init, s.drop_last()), s.last())
    }
}

/// The CRC of `s`.
pub open spec fn crc_of(s: Seq<u8>) -> u32 {
    crc_from(0xFFFF_FFFF, s)
}

/// MPEG-2 CRC-32 of `bytes`.
pub fn mpeg2_crc32(bytes: &[u8]) -> (r: u32)
    ensures
        r == crc_of(bytes@),
{
    let mut crc: u32 = 0xFFFF_FFFF;
    let mut i: usize = 0;
    while i < bytes.len()
        invariant
            i <= bytes@.len(),
            crc == crc_of(bytes@.take(i as int)),
        decreases bytes@.len() - i,
    {
        let ghost before = crc;
        crc = crc ^ ((bytes[i] as u32) << 24);
        let ghost start = crc;
        let mut k: u32 = 0;
        while k < 8
            invariant
                k <= 8,
                crc == crc_shifts(start, k as nat),
            decreases 8 - k,
        {
            if crc & 0x8000_0000 != 0 {
                crc = (crc << 1) ^ 0x04C1_1DB7;
            } else {
                crc = crc << 1;
            }
            k += 1;
        }
        proof {
            let next = bytes@.take(i + 1);
            assert(next.drop_last() =~= bytes@.take(i as int));
            assert(next.last() == bytes@[i as int]);
        }
        i += 1;
    }
    assert(bytes@.take(i as int) =~= bytes@);
    crc
}

/// Feeding the top byte of the register shifts it out: eight plain shifts.
proof fn lemma_crc_step_top_byte(crc: u32)
    ensures
        crc_step(crc, ((crc >> 24) & 0xFF) as u8) == crc << 8,
{
    let b = ((crc >> 24) & 0xFF) as u8;
    let c0 = crc ^ ((b as u32) << 24);
    reveal_with_fuel(crc_shifts, 9);
    let c1 = crc_shift(c0);
    let c2 = crc_shift(c1);
    let c3 = crc_shift(c2);
    let c4 = crc_shift(c3);
    let c5 = crc_shift(c4);
    let c6 = crc_shift(c5);
    let c7 = crc_shift(c6);
    let c8 = crc_shift(c7);
    assert(crc_shifts(c0, 8) == c8);
    assert({
        let t = crc ^ ((((crc >> 24) & 0xFF) as u8 as u32) << 24);
        let t1 = if t & 0x8000_0000 != 0 { (t << 1) ^ 0x04C1_1DB7 } else { t << 1 };
        let t2 = if t1 & 0x8000_0000 != 0 { (t1 << 1) ^ 0x04C1_1DB7 } else { t1 << 1 };
        let t3 = if t2 & 0x8000_0000 != 0 { (t2 << 1) ^ 0x04C1_1DB7 } else { t2 << 1 };
        let t4 = if t3 & 0x8000_0000 != 0 { (t3 << 1) ^ 0x04C1_1DB7 } else { t3 << 1 };
        let t5 = if t4 & 0x8000_0000 != 0 { (t4 << 1) ^ 0x04C1_1DB7 } else { t4 << 1 };
        let t6 = if t5 & 0x8000_0000 != 0 { (t5 << 1) ^ 0x04C1_1DB7 } else { t5 << 1 };
        let t7 = if t6 & 0x8000_0000 != 0 { (t6 << 1) ^ 0x04C1_1DB7 } else { t6 << 1 };
        let t8 = if t7 & 0x8000_0000 != 0 { (t7 << 1) ^ 0x04C1_1DB7 } else { t7 << 1 };
        t8 == crc << 8
    }) by (bit_vector);
}

/// A run of bytes followed by its own CRC has CRC zero.
pub proof fn lemma_crc_of_sealed(s: Seq<u8>)
    ensures
        crc_of(s + be32_bytes(crc_of(s))) == 0,
{
    let c = crc_of(s);
    let w = be32_bytes(c);
    let s4 = s + w;
    let s3 = s4.drop_last();
    let s2 = s3.drop_last();
    let s1 = s2.drop_last();
    assert(s1.drop_last() =~= s);
    assert(s1.last() == w[0] && s2.last() == w[1] && s3.last() == w[2] && s4.last() == w[3]);
    let c1 = c << 8;
    let c2 = c1 << 8;
    let c3 = c2 << 8;
    assert({
        let d1 = c << 8;
        let d2 = d1 << 8;
        let d3 = d2 << 8;
        &&& ((d1 >> 24) & 0xFF) as u8 == ((c >> 16) & 0xFF) as u8
        &&& ((d2 >> 24) & 0xFF) as u8 == ((c >> 8) & 0xFF) as u8
        &&& ((d3 >> 24) & 0xFF) as u8 == (c & 0xFF) as u8
        &&& d3 << 8 == 0
    }) by (bit_vector);
    lemma_crc_step_top_byte(c);
    lemma_crc_step_top_byte(c1);
    lemma_crc_step_top_byte(c2);
    lemma_crc_step_top_byte(c3);
    assert(crc_of(s1) == c1);
    assert(crc_of(s2) == c2);
    assert(crc_of(s3) == c3);
    assert(crc_of(s4) == c3 << 8);
}

/// What the CRC is: a register of 32 bits that starts with all ones; each byte is added to
/// its first eight bits, and the register is doubled eight times, with the polynomial
/// x^32 + x^26 + x^23 + x^22 + x^16 + x^12 + x^11 + x^10 + x^8 + x^7 + x^5 + x^4 + x^2 + x + 1
/// subtracted wherever it runs over.
pub proof fn lemma_crc_is_remainder(s: Seq<u8>, b: u8, c: u32)
    ensures
        crc_of(Seq::empty()) == 4_294_967_295,
        crc_of(s.push(b)) == crc_shifts(crc_of(s) ^ ((b as u32) << 24), 8),
        crc_shifts(c, 0) == c,
        forall|n: nat| #[trigger] crc_shifts(c, n + 1) == crc_shift(crc_shifts(c, n)),
        c < 2_147_483_648 ==> crc_shift(c) == 2 * c,
        c >= 2_147_483_648 ==> crc_shift(c) ^ 79_764_919 == 2 * (c - 2_147_483_648),
        79_764_919 == 67_108_864 + 8_388_608 + 4_194_304 + 65_536 + 4_096 + 2_048 + 1_024 + 256 + 128
            + 32 + 16 + 4 + 2 + 1,
{
    assert(s.push(b).drop_last() =~= s);
    assert((c < 2_147_483_648 ==> c & 0x8000_0000 == 0 && c << 1 == 2 * c) && (c >= 2_147_483_648
        ==> c & 0x8000_0000 != 0 && ((c << 1) ^ 0x04C1_1DB7) ^ 79_764_919 == 2 * (c
        - 2_147_483_648))) by (bit_vector);
}

} // verus!
