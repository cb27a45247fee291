//! Unsigned 32-bit numbers as four bytes, least significant byte first.

use vstd::prelude::*;

verus! {

/// The number that the first four bytes of `bytes` hold.
pub open spec fn le_u32(bytes: Seq<u8>) -> nat
    recommends
        bytes.len() >= 4,
{
    (bytes[0] as nat) + 0x100 * (bytes[1] as nat) + 0x1_0000 * (bytes[2] as nat) + 0x100_0000 * (
    bytes[3] as nat)
}

/// The four bytes that hold `value`, which is below 2^32.
pub open spec fn le_bytes(value: nat) -> Seq<u8>
    recommends
        value <= u32::MAX,
{
    seq![
        (value % 0x100) as u8,
        (value / 0x100 % 0x100) as u8,
        (value / 0x1_0000 % 0x100) as u8,
        (value / 0x100_0000 % 0x100) as u8,
    ]
}

/// A number is encoded in four bytes.
pub proof fn lemma_le_bytes_len(value: nat)
    ensures
        le_bytes(value).len() == 4,
{
}

/// Decoding what was encoded gives the number back.
pub proof fn lemma_le_u32_of_le_bytes(value: nat)
    requires
        value <= u32::MAX,
    ensures
        le_u32(le_bytes(value)) == value,
{
}

/// Reads the number held in the four bytes of `buf` that start at `at`.
pub fn read_u32_le(buf: &[u8], at: usize) -> (value: u32)
    requires
        at + 4 <= buf@.len(),
    ensures
        value == le_u32(buf@.subrange(at as int, at + 4)),
{
    let b0: u32 = buf[at] as u32;
    let b1: u32 = buf[at + 1] as u32;
    let b2: u32 = buf[at + 2] as u32;
    let b3: u32 = buf[at + 3] as u32;
    b0 + 0x100 * b1 + 0x1_0000 * b2 + 0x100_0000 * b3
}

/// Appends the four bytes that hold `value` to `sink`.
pub fn push_u32_le(sink: &mut Vec<u8>, value: u32)
    ensures
        final(sink)@ == old(sink)@ + le_bytes(value as nat),
{
    sink.push((value % 0x100) as u8);
    sink.push((value / 0x100 % 0x100) as u8);
    sink.push((value / 0x1_0000 % 0x100) as u8);
    sink.push((value / 0x100_0000 % 0x100) as u8);
    assert(sink@ =~= old(sink)@ + le_bytes(value as nat));
}

} // verus!
