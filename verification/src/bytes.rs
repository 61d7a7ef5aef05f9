//! Numbers as bytes, least significant byte first.

use vstd::prelude::*;

verus! {

/// The four bytes of `x`.
pub open spec fn le32(x: u32) -> Seq<u8> {
    seq![
        (x % 0x100) as u8,
        (x / 0x100 % 0x100) as u8,
        (x / 0x1_0000 % 0x100) as u8,
        (x / 0x100_0000) as u8,
    ]
}

/// The number that four bytes stand for.
pub open spec fn of_le32(b: Seq<u8>) -> u32 {
    (b[0] + 0x100 * b[1] + 0x1_0000 * b[2] + 0x100_0000 * b[3]) as u32
}

/// The eight bytes of `x`.
pub open spec fn le64(x: u64) -> Seq<u8> {
    le32((x % 0x1_0000_0000) as u32) + le32((x / 0x1_0000_0000) as u32)
}

/// Reading the bytes of a number gives the number back.
pub proof fn lemma_le32_back(x: u32)
    ensures
        of_le32(le32(x)) == x,
{
}

/// Appends the bytes of `x`.
pub fn push_le32(bytes: &mut Vec<u8>, x: u32)
    ensures
        final(bytes)@ == old(bytes)@ + le32(x),
{
    bytes.push((x % 0x100) as u8);
    bytes.push((x / 0x100 % 0x100) as u8);
    bytes.push((x / 0x1_0000 % 0x100) as u8);
    bytes.push((x / 0x100_0000) as u8);
    assert(bytes@ =~= old(bytes)@ + le32(x));
}

/// The number whose bytes stand at `at`.
pub fn read_le32(bytes: &[u8], at: usize) -> (x: u32)
    requires
        at + 4 <= bytes@.len(),
    ensures
        x == of_le32(bytes@.subrange(at as int, at + 4)),
{
    bytes[at] as u32 + 0x100 * bytes[at + 1] as u32 + 0x1_0000 * bytes[at + 2] as u32 + 0x100_0000
        * bytes[at + 3] as u32
}

/// The eight bytes of `x`.
pub fn to_le64(x: u64) -> (bytes: Vec<u8>)
    ensures
        bytes@ == le64(x),
{
    let mut bytes: Vec<u8> = Vec::new();
    push_le32(&mut bytes, (x % 0x1_0000_0000) as u32);
    push_le32(&mut bytes, (x / 0x1_0000_0000) as u32);
    assert(bytes@ =~= le64(x));
    bytes
}

} // verus!
