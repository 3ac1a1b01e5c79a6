//! sysfn 70/80 information-structure buffer check: the buffer a file-system
//! request names must lie in user space.

use vstd::prelude::*;
use crate::le::{le_u32, put_u32, read_u32_le, write_u32_le_arr, lemma_le_u32_put, lemma_le_u32_put_other};

verus! {

/// Differential PRNG seed of the operation-safety corpus.
pub const FILE_SYSTEM_IS_OPERATION_SAFE_PRNG_SEED: u32 = 0x4355_545A;

/// Kernel base: user space is `[0, OS_BASE)`.
pub const OS_BASE: u32 = 0x8000_0000;

/// Offsets into the information structure.
pub const OFF_SUBFN: usize = 0;
pub const OFF_ENCODING: usize = 8;
pub const OFF_COUNT_OR_SIZE: usize = 12;
pub const OFF_BUFFER_BASE: usize = 16;

/// Readable size of the information structure this check needs.
pub const INF_STRUCT_MIN: usize = 20;

/// Directory entry (BDVK) size for CP866 names, for Unicode names, and the
/// result header before the entries.
pub const BDVK_CP866: u32 = 304;
pub const BDVK_UNICODE: u32 = 560;
pub const BDVK_HEADER: u32 = 32;
/// Fixed buffer lengths of subfunctions 5 and 6.
pub const SUBFN5_LEN: u32 = 40;
pub const SUBFN6_LEN: u32 = 32;

/// Buffer length a known subfunction checks, or `None` for an unknown one
/// (which is accepted without a region check).
pub open spec fn spec_buffer_len(subfn: u32, encoding: u32, count_or_size: u32) -> Option<u32> {
    if subfn == 0 || subfn == 2 || subfn == 3 {
        Some(count_or_size)
    } else if subfn == 1 {
        let bdvk: int = if encoding <= 1 { 304 } else { 560 };
        Some(((bdvk * count_or_size + 32) % 0x1_0000_0000) as u32)
    } else if subfn == 5 {
        Some(40)
    } else if subfn == 6 {
        Some(32)
    } else {
        None
    }
}

/// `[base, base + len)` lies in user space; a sum that wraps to exactly 2^32
/// (the end of the address space) is accepted.
pub open spec fn spec_region_userspace(base: u32, len: u32) -> bool {
    base < OS_BASE && (base as int + len as int <= OS_BASE as int || base as int + len as int == 0x1_0000_0000)
}

/// `1` (zero flag set, accept) or `0` (reject) for a request.
pub open spec fn spec_operation_safe(subfn: u32, encoding: u32, count_or_size: u32, base: u32) -> u32 {
    match spec_buffer_len(subfn, encoding, count_or_size) {
        None => 1,
        Some(len) => if spec_region_userspace(base, len) { 1 } else { 0 },
    }
}

/// `(known, len)`: the buffer length of a known subfunction, `(false, 0)` otherwise.
pub fn fs_op_safe_buffer_len_ex(subfn: u32, encoding: u32, count_or_size: u32) -> (r: (bool, u32))
    ensures
        r == (match spec_buffer_len(subfn, encoding, count_or_size) {
            Some(len) => (true, len),
            None => (false, 0u32),
        }),
{
    if subfn == 0 {
        return (true, count_or_size);
    }
    if subfn == 1 {
        let bdvk = if encoding <= 1 { BDVK_CP866 } else { BDVK_UNICODE };
        let r = bdvk.wrapping_mul(count_or_size).wrapping_add(BDVK_HEADER);
        proof {
            crate::wrap::lemma_wmul32(bdvk, count_or_size);
            crate::wrap::lemma_wadd32(bdvk.wrapping_mul(count_or_size), BDVK_HEADER);
            crate::wrap::lemma_mod32_add(bdvk * count_or_size, 32);
        }
        return (true, r);
    }
    if subfn <= 3 {
        return (true, count_or_size);
    }
    if subfn == 5 {
        return (true, SUBFN5_LEN);
    }
    if subfn == 6 {
        return (true, SUBFN6_LEN);
    }
    (false, 0)
}

/// `Some(len)` when the region check runs, `None` for the unknown-subfunction accept.
pub fn fs_op_safe_buffer_len(subfn: u32, encoding: u32, count_or_size: u32) -> (r: Option<u32>)
    ensures
        r == spec_buffer_len(subfn, encoding, count_or_size),
{
    let (known, len) = fs_op_safe_buffer_len_ex(subfn, encoding, count_or_size);
    if known { Some(len) } else { None }
}

/// Region check: `1` when `[base, base + len)` is user space, else `0`.
pub fn is_region_userspace(base: u32, len: u32) -> (r: u32)
    ensures
        r == (if spec_region_userspace(base, len) { 1u32 } else { 0u32 }),
{
    if base > OS_BASE - 1 {
        return 0;
    }
    if len > u32::MAX - base {
        let sum = base.wrapping_add(len);
        return if sum == 0 { 1 } else { 0 };
    }
    let sum = base + len;
    if sum > OS_BASE {
        return 0;
    }
    1
}

/// The 20-byte information structure holding the four fields this check reads.
pub fn make_inf(subfn: u32, encoding: u32, count_or_size: u32, base: u32) -> (r: [u8; 20])
    ensures
        le_u32(r@, 0) == subfn,
        le_u32(r@, 8) == encoding,
        le_u32(r@, 12) == count_or_size,
        le_u32(r@, 16) == base,
        le_u32(r@, 4) == 0,
{
    let mut buf = [0u8; 20];
    let ghost z = buf@;
    write_u32_le_arr(&mut buf, OFF_SUBFN, subfn);
    let ghost s1 = buf@;
    write_u32_le_arr(&mut buf, OFF_ENCODING, encoding);
    let ghost s2 = buf@;
    write_u32_le_arr(&mut buf, OFF_COUNT_OR_SIZE, count_or_size);
    let ghost s3 = buf@;
    write_u32_le_arr(&mut buf, OFF_BUFFER_BASE, base);
    proof {
        assert(le_u32(z, 4) == 0);
        lemma_le_u32_put(z, 0, subfn);
        lemma_le_u32_put_other(z, 0, subfn, 4);
        lemma_le_u32_put(s1, 8, encoding);
        lemma_le_u32_put_other(s1, 8, encoding, 0);
        lemma_le_u32_put_other(s1, 8, encoding, 4);
        lemma_le_u32_put(s2, 12, count_or_size);
        lemma_le_u32_put_other(s2, 12, count_or_size, 0);
        lemma_le_u32_put_other(s2, 12, count_or_size, 4);
        lemma_le_u32_put_other(s2, 12, count_or_size, 8);
        lemma_le_u32_put(s3, 16, base);
        lemma_le_u32_put_other(s3, 16, base, 0);
        lemma_le_u32_put_other(s3, 16, base, 4);
        lemma_le_u32_put_other(s3, 16, base, 8);
        lemma_le_u32_put_other(s3, 16, base, 12);
    }
    buf
}

/// The operation-safety check over an information structure held in memory: `1` accept, `0` reject.
pub fn file_system_is_operation_safe(inf: &[u8]) -> (r: u32)
    requires
        inf.len() >= 20,
    ensures
        r == spec_operation_safe(le_u32(inf@, 0), le_u32(inf@, 8), le_u32(inf@, 12), le_u32(inf@, 16)),
{
    let subfn = read_u32_le(inf, OFF_SUBFN);
    let encoding = read_u32_le(inf, OFF_ENCODING);
    let count_or_size = read_u32_le(inf, OFF_COUNT_OR_SIZE);
    let base = read_u32_le(inf, OFF_BUFFER_BASE);
    let (known, len) = fs_op_safe_buffer_len_ex(subfn, encoding, count_or_size);
    if !known {
        1
    } else {
        is_region_userspace(base, len)
    }
}

/// Unknown subfunctions are accepted whatever buffer they name.
pub proof fn law_unknown_subfn_accepted(subfn: u32, encoding: u32, count_or_size: u32, base: u32)
    requires
        subfn == 4 || subfn > 6,
    ensures
        spec_operation_safe(subfn, encoding, count_or_size, base) == 1,
{
}

/// A buffer starting in kernel space is rejected for every known subfunction.
pub proof fn law_kernel_base_rejected(subfn: u32, encoding: u32, count_or_size: u32, base: u32)
    requires
        subfn <= 3 || subfn == 5 || subfn == 6,
        base >= OS_BASE,
    ensures
        spec_operation_safe(subfn, encoding, count_or_size, base) == 0,
{
}

} // verus!
