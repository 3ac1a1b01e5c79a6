//! The I/O permission bitmap of the task state segment: one bit per port,
//! clear for allowed, set for denied.

use vstd::prelude::*;

verus! {

/// Size of the full bitmap in bytes.
pub const IO_MAP_BYTES: usize = 8192;

/// Number of ports the full bitmap covers.
pub const IO_MAP_BITS: u32 = 65536;

/// Seed of the pseudo-random corpus (`'CUTX'`).
pub const SET_IO_ACCESS_RIGHTS_PRNG_SEED: u32 = 0x4355_5458;

/// Bit `k` (0..8) of byte `b`.
pub open spec fn bit_of(b: u8, k: int) -> bool {
    (b >> (k as u8)) & 1 == 1
}

/// The permission bit of `port` in `map`.
pub open spec fn port_bit(map: Seq<u8>, port: u32) -> bool {
    bit_of(map[port as int / 8], port as int % 8)
}

/// Allow (`clear_access == 0`: clear the bit) or deny (set the bit) `port`.
/// Every other bit of the map stays as it was.
pub fn set_io_access_rights(port: u32, clear_access: u32, io_map: &mut [u8])
    requires
        (port / 8) < old(io_map)@.len(),
    ensures
        final(io_map)@.len() == old(io_map)@.len(),
        port_bit(final(io_map)@, port) == (clear_access != 0),
        forall|i: int| 0 <= i < old(io_map)@.len() && i != port / 8 ==> final(io_map)@[i] == old(io_map)@[i],
        forall|k: int| 0 <= k < 8 && k != port % 8 ==>
            #[trigger] bit_of(final(io_map)@[port as int / 8], k) == bit_of(old(io_map)@[port as int / 8], k),
{
    let byte_index = (port >> 3) as usize;
    let bit: u8 = (port & 7) as u8;
    assert(byte_index == port / 8 && bit == port % 8) by (bit_vector)
        requires
            byte_index == (port >> 3u32) as usize,
            bit == (port & 7u32) as u8;
    let mask: u8 = 1u8 << bit;
    let cur = io_map[byte_index];
    let new_b: u8 = if clear_access == 0 { cur & !mask } else { cur | mask };
    proof {
        lemma_bits(cur, bit, clear_access == 0, new_b);
    }
    io_map[byte_index] = new_b;
}

proof fn lemma_bits(cur: u8, bit: u8, clear: bool, new_b: u8)
    requires
        bit < 8,
        new_b == (if clear { cur & !(1u8 << bit) } else { cur | (1u8 << bit) }),
    ensures
        bit_of(new_b, bit as int) == !clear,
        forall|k: int| 0 <= k < 8 && k != bit ==> #[trigger] bit_of(new_b, k) == bit_of(cur, k),
{
    assert forall|k: int| 0 <= k < 8 implies #[trigger] bit_of(new_b, k) == (if k == bit { !clear } else { bit_of(cur, k) }) by {
        let kk = k as u8;
        if clear {
            assert(((new_b >> kk) & 1 == 1) == (if kk == bit { false } else { (cur >> kk) & 1 == 1 })) by (bit_vector)
                requires
                    bit < 8u8, kk < 8u8,
                    new_b == cur & !(1u8 << bit);
        } else {
            assert(((new_b >> kk) & 1 == 1) == (if kk == bit { true } else { (cur >> kk) & 1 == 1 })) by (bit_vector)
                requires
                    bit < 8u8, kk < 8u8,
                    new_b == cur | (1u8 << bit);
        }
    }
}

/// The permission bit of `port`: 1 denied, 0 allowed.
pub fn io_map_bit(io_map: &[u8], port: u32) -> (r: u8)
    requires
        (port / 8) < io_map@.len(),
    ensures
        r == (if port_bit(io_map@, port) { 1u8 } else { 0u8 }),
{
    let byte_index = (port >> 3) as usize;
    let bit: u8 = (port & 7) as u8;
    assert(byte_index == port / 8 && bit == port % 8) by (bit_vector)
        requires
            byte_index == (port >> 3u32) as usize,
            bit == (port & 7u32) as u8;
    let b = io_map[byte_index];
    let r = (b >> bit) & 1;
    assert(r == 0 || r == 1) by (bit_vector)
        requires
            r == (b >> bit) & 1;
    r
}

/// Ports sharing a byte do not disturb each other: after setting one port,
/// any other port reads as before.
pub proof fn law_other_ports_unchanged(old_map: Seq<u8>, new_map: Seq<u8>, port: u32, other: u32)
    requires
        (port / 8) < old_map.len(),
        (other / 8) < old_map.len(),
        other != port,
        new_map.len() == old_map.len(),
        forall|i: int| 0 <= i < old_map.len() && i != port / 8 ==> new_map[i] == old_map[i],
        forall|k: int| 0 <= k < 8 && k != port % 8 ==> #[trigger] bit_of(new_map[port as int / 8], k) == bit_of(old_map[port as int / 8], k),
    ensures
        port_bit(new_map, other) == port_bit(old_map, other),
{
    if other / 8 == port / 8 {
        assert(other % 8 != port % 8);
    }
}

} // verus!
