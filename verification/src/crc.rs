//! Bit-serial reflected CRC update (partial hash in and out, no final XOR).

use vstd::prelude::*;

verus! {

/// One shift-register step: the low bit of `partial ^ b` decides whether the
/// shifted register is XORed with `poly`.
pub open spec fn crc_bit_step(partial: u32, poly: u32, b: u32) -> u32 {
    if (partial ^ b) & 1 != 0 {
        (partial >> 1u32) ^ poly
    } else {
        partial >> 1u32
    }
}

/// `n` bit steps over the low bits of `b` (least significant first).
pub open spec fn crc_bits(partial: u32, poly: u32, b: u32, n: nat) -> u32
    decreases n,
{
    if n == 0 {
        partial
    } else {
        crc_bits(crc_bit_step(partial, poly, b), poly, b >> 1u32, (n - 1) as nat)
    }
}

/// The register after all eight bits of one byte.
pub open spec fn crc_byte(partial: u32, poly: u32, byte: u8) -> u32 {
    crc_bits(partial, poly, byte as u32, 8)
}

/// The register after every byte of `data`, in order.
pub open spec fn spec_crc32(partial: u32, poly: u32, data: Seq<u8>) -> u32
    decreases data.len(),
{
    if data.len() == 0 {
        partial
    } else {
        crc_byte(spec_crc32(partial, poly, data.drop_last()), poly, data.last())
    }
}

/// Update a running CRC over `data` with reflected polynomial `poly`; an empty
/// `data` leaves `partial` unchanged.
pub fn crc32_update(partial: u32, poly: u32, data: &[u8]) -> (r: u32)
    ensures
        r == spec_crc32(partial, poly, data@),
{
    let mut acc = partial;
    let mut idx: usize = 0;
    while idx < data.len()
        invariant
            idx <= data.len(),
            acc == spec_crc32(partial, poly, data@.take(idx as int)),
        decreases data.len() - idx,
    {
        let byte = data[idx];
        let mut b: u32 = byte as u32;
        let mut k: u32 = 0;
        let ghost start = acc;
        while k < 8
            invariant
                k <= 8,
                crc_bits(acc, poly, b, (8 - k) as nat) == crc_byte(start, poly, byte),
            decreases 8 - k,
        {
            let mix = acc ^ b;
            let shifted = acc >> 1;
            let next = if mix & 1 != 0 { shifted ^ poly } else { shifted };
            assert(next == crc_bit_step(acc, poly, b));
            acc = next;
            b = b >> 1;
            k = k + 1;
        }
        assert(data@.take(idx as int + 1).drop_last() =~= data@.take(idx as int));
        idx = idx + 1;
    }
    assert(data@.take(data.len() as int) =~= data@);
    acc
}

/// Feeding the bytes in two consecutive chunks gives the same register as
/// feeding their concatenation at once.
pub proof fn law_crc32_chunks(partial: u32, poly: u32, a: Seq<u8>, b: Seq<u8>)
    ensures
        spec_crc32(spec_crc32(partial, poly, a), poly, b) == spec_crc32(partial, poly, a + b),
    decreases b.len(),
{
    if b.len() == 0 {
        assert(a + b =~= a);
    } else {
        law_crc32_chunks(partial, poly, a, b.drop_last());
        assert((a + b).drop_last() =~= a + b.drop_last());
        assert((a + b).last() == b.last());
    }
}

} // verus!
