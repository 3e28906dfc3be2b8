//! Little-endian 32-bit fields, as the record store frames them.

use vstd::prelude::*;

verus! {

/// The number that four bytes hold, least significant byte first.
pub open spec fn u32_from_le(s: Seq<u8>) -> int
    recommends
        s.len() == 4,
{
    s[0] as int + 0x100 * (s[1] as int) + 0x1_0000 * (s[2] as int) + 0x100_0000 * (s[3] as int)
}

/// The four bytes that hold `n` modulo 2^32, least significant byte first.
pub open spec fn u32_to_le(n: nat) -> Seq<u8> {
    seq![
        (n % 0x100) as u8,
        (n / 0x100 % 0x100) as u8,
        (n / 0x1_0000 % 0x100) as u8,
        (n / 0x100_0000 % 0x100) as u8,
    ]
}

/// Reading back what `u32_to_le` wrote gives the number modulo 2^32.
pub proof fn lemma_u32_le_roundtrip(n: nat)
    ensures
        u32_to_le(n).len() == 4,
        u32_from_le(u32_to_le(n)) == n % 0x1_0000_0000,
{
}

/// Writing what `u32_from_le` read gives the same four bytes.
pub proof fn lemma_u32_le_bytes_roundtrip(s: Seq<u8>)
    requires
        s.len() == 4,
    ensures
        0 <= u32_from_le(s) < 0x1_0000_0000,
        u32_to_le(u32_from_le(s) as nat) == s,
{
    assert(u32_to_le(u32_from_le(s) as nat) =~= s);
}

/// Reads a little-endian `u32` from `buf` at `*idx` and moves `*idx` past it.
pub fn get_u32_le(buf: &Vec<u8>, idx: &mut usize) -> (res: u32)
    requires
        *old(idx) + 4 <= buf.len(),
    ensures
        res == u32_from_le(buf@.subrange(*old(idx) as int, *old(idx) + 4)),
        *final(idx) == *old(idx) + 4,
{
    let i: usize = *idx;
    let b0: u32 = buf[i] as u32;
    let b1: u32 = buf[i + 1] as u32;
    let b2: u32 = buf[i + 2] as u32;
    let b3: u32 = buf[i + 3] as u32;
    assert((b0 | (b1 << 8) | (b2 << 16) | (b3 << 24)) == b0 + 0x100 * b1 + 0x1_0000 * b2
        + 0x100_0000 * b3) by (bit_vector)
        requires
            b0 < 0x100,
            b1 < 0x100,
            b2 < 0x100,
            b3 < 0x100,
    ;
    *idx = i + 4;
    b0 | (b1 << 8) | (b2 << 16) | (b3 << 24)
}

/// The four little-endian bytes of `n`, taken modulo 2^32.
pub fn mk_u32_le(n: &usize) -> (res: Vec<u8>)
    ensures
        res@ == u32_to_le(*n as nat),
{
    let v: usize = *n;
    let b0: u8 = (v & 0xFF) as u8;
    let b1: u8 = (v >> 8 & 0xFF) as u8;
    let b2: u8 = (v >> 16 & 0xFF) as u8;
    let b3: u8 = (v >> 24 & 0xFF) as u8;
    assert(v & 0xFF == v % 0x100 && v >> 8 & 0xFF == v / 0x100 % 0x100 && v >> 16 & 0xFF == v
        / 0x1_0000 % 0x100 && v >> 24 & 0xFF == v / 0x100_0000 % 0x100) by (bit_vector);
    let res: Vec<u8> = vec![b0, b1, b2, b3];
    assert(res@ =~= u32_to_le(*n as nat));
    res
}

} // verus!
