//! Two's-complement arithmetic on 32-bit registers, stated over `int`.

use vstd::prelude::*;
use vstd::arithmetic::div_mod::{
    lemma_add_mod_noop, lemma_mul_mod_noop_left, lemma_sub_mod_noop, lemma_mod_twice,
};

verus! {

/// `x` reduced modulo 2^32 (the value a 32-bit register holds).
pub open spec fn mod32(x: int) -> u32 {
    (x % 0x1_0000_0000) as u32
}

/// `x` reduced modulo 2^16.
pub open spec fn mod16(x: int) -> u16 {
    (x % 0x1_0000) as u16
}

/// `x` reduced modulo 2^8.
pub open spec fn mod8(x: int) -> u8 {
    (x % 0x100) as u8
}

pub proof fn lemma_mod32_range(x: int)
    ensures
        0 <= x % 0x1_0000_0000 < 0x1_0000_0000,
        mod32(x) as int == x % 0x1_0000_0000,
{
}

/// `wrapping_add` on `u32` is addition modulo 2^32.
pub proof fn lemma_wadd32(x: u32, y: u32)
    ensures
        x.wrapping_add(y) == mod32(x + y),
{
}

/// `wrapping_sub` on `u32` is subtraction modulo 2^32.
pub proof fn lemma_wsub32(x: u32, y: u32)
    ensures
        x.wrapping_sub(y) == mod32(x - y),
{
}

/// `wrapping_mul` on `u32` is multiplication modulo 2^32.
pub proof fn lemma_wmul32(x: u32, y: u32)
    ensures
        x.wrapping_mul(y) == mod32(x * y),
{
}

/// Reducing an operand first does not change a sum modulo 2^32.
pub proof fn lemma_mod32_add(a: int, b: int)
    ensures
        mod32(mod32(a) + b) == mod32(a + b),
        mod32(a + mod32(b)) == mod32(a + b),
{
    lemma_add_mod_noop(a, b, 0x1_0000_0000);
    lemma_add_mod_noop(a % 0x1_0000_0000, b, 0x1_0000_0000);
    lemma_mod_twice(a, 0x1_0000_0000);
    lemma_add_mod_noop(a, b % 0x1_0000_0000, 0x1_0000_0000);
    lemma_mod_twice(b, 0x1_0000_0000);
}

/// Reducing an operand first does not change a difference modulo 2^32.
pub proof fn lemma_mod32_sub(a: int, b: int)
    ensures
        mod32(mod32(a) - b) == mod32(a - b),
        mod32(a - mod32(b)) == mod32(a - b),
{
    lemma_sub_mod_noop(a, b, 0x1_0000_0000);
    lemma_sub_mod_noop(a % 0x1_0000_0000, b, 0x1_0000_0000);
    lemma_mod_twice(a, 0x1_0000_0000);
    lemma_sub_mod_noop(a, b % 0x1_0000_0000, 0x1_0000_0000);
    lemma_mod_twice(b, 0x1_0000_0000);
}

/// Reducing the left factor first does not change a product modulo 2^32.
pub proof fn lemma_mod32_mul(a: int, b: int)
    ensures
        mod32(mod32(a) * b) == mod32(a * b),
{
    lemma_mul_mod_noop_left(a, b, 0x1_0000_0000);
}

} // verus!
