//! What masks, shifts and joined bytes are as numbers.
use vstd::prelude::*;

verus! {

/// One for a set bit, zero for a clear one.
pub open spec fn bit(x: bool) -> int {
    if x { 1 } else { 0 }
}

/// The bits of a byte by division.
pub(crate) proof fn lemma_byte_bits(b: u8)
    by (bit_vector)
    ensures
        (b & 0x80 != 0) == (b / 128 == 1),
        (b & 0x40 != 0) == (b / 64 % 2 == 1),
        (b & 0x20 != 0) == (b / 32 % 2 == 1),
        (b & 0x10 != 0) == (b / 16 % 2 == 1),
        (b & 0x08 != 0) == (b / 8 % 2 == 1),
        (b & 0x04 != 0) == (b / 4 % 2 == 1),
        (b & 0x02 != 0) == (b / 2 % 2 == 1),
        (b & 0x01 != 0) == (b % 2 == 1),
        b & 3 == b % 4,
        b & 7 == b % 8,
        b & 0x0F == b % 16,
        b & 0x1F == b % 32,
        b & 0x3F == b % 64,
        b & 0x7F == b % 128,
        b >> 1 == b / 2,
        b >> 2 == b / 4,
        b >> 3 == b / 8,
        b >> 4 == b / 16,
        b >> 6 == b / 64,
        (b >> 6) & 3 == b / 64,
        (b >> 5) & 7 == b / 32,
        (b >> 4) & 3 == b / 16 % 4,
        (b >> 4) & 0x0F == b / 16,
        (b >> 1) & 0x1F == b / 2 % 32,
        (((b >> 4) & 3) & 2 != 0) == (b / 32 % 2 == 1),
        (((b >> 4) & 3) & 1 != 0) == (b / 16 % 2 == 1),
        ((b & 0x1F) >> 3) & 3 == b / 8 % 4,
        ((b & 0x1F) & 4 != 0) == (b / 4 % 2 == 1),
        (b & 0x1F) & 3 == b % 4,
{
}

/// Bytes joined to 16, 12, 13, 15, 22 and 32 bits.
pub(crate) proof fn lemma_joined_bytes(a: u8, b: u8, c: u8, d: u8)
    by (bit_vector)
    ensures
        ((a as u16) << 8) | (b as u16) == (a as u16) * 256 + (b as u16),
        (((a & 0x0F) as u16) << 8) | (b as u16) == ((a % 16) as u16) * 256 + (b as u16),
        (((a & 0x1F) as u16) << 8) | (b as u16) == ((a % 32) as u16) * 256 + (b as u16),
        (((a & 0x7F) as u16) << 8) | (b as u16) == ((a % 128) as u16) * 256 + (b as u16),
        (((a & 0x3F) as u32) << 16) | ((b as u32) << 8) | (c as u32) == ((a % 64) as u32) * 65536
            + (b as u32) * 256 + (c as u32),
        ((a as u32) << 24) | ((b as u32) << 16) | ((c as u32) << 8) | (d as u32) == (a as u32)
            * 16777216 + (b as u32) * 65536 + (c as u32) * 256 + (d as u32),
        (((a & 0x7F) as u32) << 15) | ((b as u32) << 7) | (((c >> 1) & 0x7F) as u32) == ((a
            % 128) as u32) * 32768 + (b as u32) * 128 + ((c / 2) as u32),
{
}

/// The bytes of a clock reference joined: 33 bits of base, nine of extension.
pub(crate) proof fn lemma_joined_clock(a: u8, b: u8, c: u8, d: u8, e: u8, f: u8)
    by (bit_vector)
    ensures
        ((a as u64) << 25) | ((b as u64) << 17) | ((c as u64) << 9) | ((d as u64) << 1) | (((e >> 7)
            & 1) as u64) == (a as u64) * 33554432 + (b as u64) * 131072 + (c as u64) * 512 + (
        d as u64) * 2 + ((e / 128) as u64),
        (((e & 1) as u16) << 8) | (f as u16) == ((e % 2) as u16) * 256 + (f as u16),
{
}

/// The bytes of a timestamp joined.
pub(crate) proof fn lemma_joined_timestamp(a: u8, b: u8, c: u8, d: u8, e: u8)
    by (bit_vector)
    ensures
        ((((a >> 1) & 0x07) as u64) << 30) | ((b as u64) << 22) | ((((c >> 1) & 0x7F) as u64) << 15)
            | ((d as u64) << 7) | (((e >> 1) & 0x7F) as u64) == ((a / 2 % 8) as u64) * 1073741824
            + (b as u64) * 4194304 + ((c / 2) as u64) * 32768 + (d as u64) * 128 + ((e
            / 2) as u64),
{
}

/// The bytes of an ESCR joined.
pub(crate) proof fn lemma_joined_escr(a: u8, b: u8, c: u8, d: u8, e: u8, f: u8)
    by (bit_vector)
    ensures
        ((((a >> 3) & 7) as u64) << 30) | (((a & 3) as u64) << 28) | ((b as u64) << 20) | ((((c
            >> 3) & 0x1F) as u64) << 15) | (((c & 3) as u64) << 13) | ((d as u64) << 5) | (((e
            >> 3) & 0x1F) as u64) == ((a / 8 % 8) as u64) * 1073741824 + ((a % 4) as u64)
            * 268435456 + (b as u64) * 1048576 + ((c / 8) as u64) * 32768 + ((c % 4) as u64)
            * 8192 + (d as u64) * 32 + ((e / 8) as u64),
        (((e & 3) as u64) << 7) | (((f >> 1) & 0x7F) as u64) == ((e % 4) as u64) * 128 + ((f
            / 2) as u64),
{
}

} // verus!
