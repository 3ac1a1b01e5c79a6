//! exFAT rolling 16-bit checksum: the directory-entry-set `SetChecksum`
//! (which skips its own field, bytes 2 and 3) and the name hash.

use vstd::prelude::*;

verus! {

/// Seed of the pseudo-random corpus (`'CUTH'`).
pub const CALCULATE_SET_CHECKSUM_FIELD_PRNG_SEED: u32 = 0x4355_5448;

/// Bytes the store needs (`SetChecksum` lives at 2..4).
pub const SET_CHECKSUM_MIN_STORE: usize = 4;

/// Size of a file directory entry.
pub const EXFAT_FILE_DIR_ENTRY_SIZE: usize = 32;

/// One step of the checksum: rotate right by one bit, then add the byte.
pub open spec fn roll(c: u16, b: u8) -> u16 {
    (((if c % 2 == 1 { 0x8000int } else { 0 }) + c / 2 + b) % 0x1_0000) as u16
}

/// The checksum of the first `n` bytes of `data`; with `skip`, bytes 2 and 3
/// are left out.
pub open spec fn rolling_checksum(data: Seq<u8>, n: nat, skip: bool) -> u16
    decreases n,
{
    if n == 0 {
        0
    } else {
        let c = rolling_checksum(data, (n - 1) as nat, skip);
        if skip && (n - 1 == 2 || n - 1 == 3) {
            c
        } else {
            roll(c, data[n - 1])
        }
    }
}

/// The rolling checksum of `data`, bytes 2 and 3 omitted when `skip_indices_2_3`.
pub fn exfat_rolling_checksum(data: &[u8], skip_indices_2_3: bool) -> (sum: u16)
    ensures
        sum == rolling_checksum(data@, data@.len(), skip_indices_2_3),
{
    let mut sum: u16 = 0;
    let mut i: usize = 0;
    while i < data.len()
        invariant
            i <= data.len(),
            sum == rolling_checksum(data@, i as nat, skip_indices_2_3),
        decreases data.len() - i,
    {
        if !(skip_indices_2_3 && (i == 2 || i == 3)) {
            let byte = data[i];
            let rotated: u16 = if sum % 2 == 1 { 0x8000 } else { 0 };
            let shifted: u16 = sum / 2;
            sum = rotated.wrapping_add(shifted).wrapping_add(byte as u16);
        }
        i = i + 1;
    }
    sum
}

/// The `SetChecksum` of an entry set (bytes 2 and 3 left out).
pub fn calculate_set_checksum_field_sum(buf: &[u8]) -> (sum: u16)
    ensures
        sum == rolling_checksum(buf@, buf@.len(), true),
{
    exfat_rolling_checksum(buf, true)
}

/// The `SetChecksum` of an entry set, computed without storing it.
pub fn calculate_set_checksum_field_slice(data: &[u8]) -> (sum: u16)
    ensures
        sum == rolling_checksum(data@, data@.len(), true),
{
    calculate_set_checksum_field_sum(data)
}

/// Compute the `SetChecksum` and store it little-endian at bytes 2..4.
pub fn calculate_set_checksum_field(buf: &mut [u8]) -> (sum: u16)
    requires
        old(buf)@.len() >= SET_CHECKSUM_MIN_STORE,
    ensures
        sum == rolling_checksum(old(buf)@, old(buf)@.len(), true),
        final(buf)@ == old(buf)@.update(2, (sum % 0x100) as u8).update(3, (sum / 0x100) as u8),
{
    let sum = calculate_set_checksum_field_sum(buf);
    buf[2] = (sum % 0x100) as u8;
    buf[3] = (sum / 0x100) as u8;
    sum
}

/// The entry-set checksum of `buf` (an empty buffer sums to 0).
pub fn fasm_oracle_set_checksum(buf: &[u8]) -> (sum: u16)
    ensures
        sum == rolling_checksum(buf@, buf@.len(), true),
{
    exfat_rolling_checksum(buf, true)
}

/// The name hash: the same rolling checksum with nothing skipped.
pub fn exfat_namehash_slice(data: &[u8]) -> (h: u16)
    ensures
        h == rolling_checksum(data@, data@.len(), false),
{
    exfat_rolling_checksum(data, false)
}

/// The skipped checksum does not depend on bytes 2 and 3.
pub proof fn law_set_checksum_ignores_field(a: Seq<u8>, b: Seq<u8>, n: nat)
    requires
        a.len() == b.len(),
        n <= a.len(),
        forall|i: int| 0 <= i < a.len() && i != 2 && i != 3 ==> a[i] == b[i],
    ensures
        rolling_checksum(a, n, true) == rolling_checksum(b, n, true),
    decreases n,
{
    if n > 0 {
        law_set_checksum_ignores_field(a, b, (n - 1) as nat);
    }
}

/// After the store, recomputing the checksum gives the stored value.
pub proof fn law_stored_checksum_verifies(buf: Seq<u8>)
    requires
        buf.len() >= 4,
    ensures
        ({
            let s = rolling_checksum(buf, buf.len(), true);
            let stored = buf.update(2, (s % 0x100) as u8).update(3, (s / 0x100) as u8);
            rolling_checksum(stored, stored.len(), true) == s
                && stored[2] as int + stored[3] as int * 0x100 == s
        }),
{
    let s = rolling_checksum(buf, buf.len(), true);
    let stored = buf.update(2, (s % 0x100) as u8).update(3, (s / 0x100) as u8);
    law_set_checksum_ignores_field(stored, buf, buf.len());
}

} // verus!
