//! Byte-lane helpers for packed 32-bit colour and register values.

use vstd::prelude::*;

verus! {

/// Rotate right by 8 bits.
pub open spec fn rotr8(x: u32) -> u32 {
    (x >> 8u32) | (x << 24u32)
}

/// Rotate left by 8 bits.
pub open spec fn rotl8(x: u32) -> u32 {
    (x << 8u32) | (x >> 24u32)
}

/// Rotate by 16 bits (either direction).
pub open spec fn rot16(x: u32) -> u32 {
    (x >> 16u32) | (x << 16u32)
}

/// Byte lane `k` (0 = least significant) of `x`.
pub open spec fn lane(x: u32, k: u32) -> u32 {
    (x >> (8 * k)) & 0xFF
}

/// Exec rotate right by 8 bits.
pub fn rotate_right8(x: u32) -> (r: u32)
    ensures
        r == rotr8(x),
{
    (x >> 8) | (x << 24)
}

/// Exec rotate left by 8 bits.
pub fn rotate_left8(x: u32) -> (r: u32)
    ensures
        r == rotl8(x),
{
    (x << 8) | (x >> 24)
}

/// Exec rotate by 16 bits.
pub fn rotate16(x: u32) -> (r: u32)
    ensures
        r == rot16(x),
{
    (x >> 16) | (x << 16)
}

/// The low byte of `x`, as a value below 256.
pub fn low8(x: u32) -> (r: u32)
    ensures
        r == x & 0xFF,
        r <= 255,
{
    let r = x & 0xFF;
    assert(r <= 255) by (bit_vector)
        requires r == x & 0xFF;
    r
}

/// Byte `(x >> shift) & 0xFF`, as a value below 256.
pub fn byte_at(x: u32, shift: u32) -> (r: u32)
    requires
        shift < 32,
    ensures
        r == (x >> shift) & 0xFF,
        r <= 255,
{
    let r = (x >> shift) & 0xFF;
    assert(r <= 255) by (bit_vector)
        requires r == (x >> shift) & 0xFF;
    r
}

} // verus!
