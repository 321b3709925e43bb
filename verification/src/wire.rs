//! Little-endian integer fields at fixed offsets of a byte buffer.

use vstd::prelude::*;

verus! {

/// The 32-bit value stored little-endian in the four bytes from `at` on.
pub open spec fn le_u32(bytes: Seq<u8>, at: int) -> int {
    bytes[at] + 0x100 * bytes[at + 1] + 0x1_0000 * bytes[at + 2] + 0x100_0000 * bytes[at + 3]
}

/// The 64-bit value stored little-endian in the eight bytes from `at` on.
pub open spec fn le_u64(bytes: Seq<u8>, at: int) -> int {
    le_u32(bytes, at) + 0x1_0000_0000 * le_u32(bytes, at + 4)
}

/// Reads the little-endian 32-bit field that starts at `at`.
pub fn read_u32_le(buffer: &[u8], at: usize) -> (value: u32)
    requires
        at + 4 <= buffer@.len(),
    ensures
        value == le_u32(buffer@, at as int),
{
    assert(at + 4 <= buffer.len());
    let b0: u32 = buffer[at] as u32;
    let b1: u32 = buffer[at + 1] as u32;
    let b2: u32 = buffer[at + 2] as u32;
    let b3: u32 = buffer[at + 3] as u32;
    b0 + 0x100 * b1 + 0x1_0000 * b2 + 0x100_0000 * b3
}

/// Reads the little-endian 64-bit field that starts at `at`.
pub fn read_u64_le(buffer: &[u8], at: usize) -> (value: u64)
    requires
        at + 8 <= buffer@.len(),
    ensures
        value == le_u64(buffer@, at as int),
{
    assert(at + 8 <= buffer.len());
    let low: u64 = read_u32_le(buffer, at) as u64;
    let high: u64 = read_u32_le(buffer, at + 4) as u64;
    low + 0x1_0000_0000 * high
}

} // verus!
