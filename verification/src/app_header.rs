//! Application image header check: a `MENUET01` / `MENUET02` banner and sane
//! memory sizes, filling the loader's header block on success.

use vstd::prelude::*;
use crate::le::{le_u16, le_u32, put_u32, read_u16_le, read_u32_le, write_u32_le_slice};
use crate::wrap::mod32;

verus! {

/// Kernel base: an image's memory must stay below it.
pub const OS_BASE: u32 = 0x8000_0000;

/// Offset of the entry point in the image header.
pub const HDR_OFF_START: usize = 12;

/// Offset of the end of the initialised image.
pub const HDR_OFF_I_END: usize = 16;

/// Offset of the memory size.
pub const HDR_OFF_MEM_SIZE: usize = 20;

/// Offset of the initial stack top.
pub const HDR_OFF_STACK_TOP: usize = 24;

/// Offset of the parameter buffer address.
pub const HDR_OFF_I_PARAM: usize = 28;

/// Offset of the path buffer address.
pub const HDR_OFF_I_ICON: usize = 32;

/// Offset of the command line in the loader's block.
pub const APP_OFF_CMDLINE: usize = 0x00;

/// Offset of the path.
pub const APP_OFF_PATH: usize = 0x04;

/// Offset of the entry point.
pub const APP_OFF_EIP: usize = 0x08;

/// Offset of the stack pointer.
pub const APP_OFF_ESP: usize = 0x0C;

/// Offset of the end of data.
pub const APP_OFF_EDATA: usize = 0x10;

/// Offset of the end of memory.
pub const APP_OFF_EMEM: usize = 0x14;

/// Seed of the pseudo-random corpus.
pub const TEST_APP_HEADER_PRNG_SEED: u32 = 0x7E57_A0AD;

/// The banner is `MENUET01` or `MENUET02` (the version dword is not checked).
pub open spec fn banner_ok(h: Seq<u8>) -> bool {
    &&& le_u32(h, 0) == 0x554E_454D
    &&& le_u16(h, 4) == 0x5445
    &&& (le_u16(h, 6) == 0x3130 || le_u16(h, 6) == 0x3230)
}

/// The sizes fit: `i_end <= mem_size < OS_BASE` and `mem_size` below the
/// free memory (`pages_free` pages, the byte count taken modulo 2^32).
pub open spec fn sizes_ok(h: Seq<u8>, pages_free: u32) -> bool {
    let mem = le_u32(h, 20);
    &&& mem >= le_u32(h, 16)
    &&& mem < OS_BASE
    &&& mem < mod32(pages_free * 0x1000)
}

/// The loader block after the check: unchanged for a bad banner; otherwise
/// the entry point is written first (also when the sizes then fail), and on
/// success end of memory, stack, command line, path and end of data follow.
pub open spec fn app_hdr_after(h: Seq<u8>, app: Seq<u8>, pages_free: u32) -> Seq<u8> {
    if !banner_ok(h) {
        app
    } else {
        let a1 = put_u32(app, 8, le_u32(h, 12));
        if !sizes_ok(h, pages_free) {
            a1
        } else {
            put_u32(put_u32(put_u32(put_u32(put_u32(a1, 0x14, le_u32(h, 20)), 0x0C, le_u32(h, 24)),
                0x00, le_u32(h, 28)), 0x04, le_u32(h, 32)), 0x10, le_u32(h, 16))
        }
    }
}

/// Check the image header `header` (at address `header_addr`) and fill the
/// loader block `app_hdr`: `header_addr` when accepted, else 0.
pub fn test_app_header(header: &[u8], app_hdr: &mut [u8], pages_free: u32, header_addr: u32) -> (r: u32)
    requires
        header@.len() >= 36,
        old(app_hdr)@.len() >= 0x18,
    ensures
        r == (if banner_ok(header@) && sizes_ok(header@, pages_free) { header_addr } else { 0 }),
        final(app_hdr)@ == app_hdr_after(header@, old(app_hdr)@, pages_free),
{
    let menu = read_u32_le(header, 0);
    if menu != 0x554E_454D {
        return 0;
    }
    let et = read_u16_le(header, 4);
    if et != 0x5445 {
        return 0;
    }
    let ver = read_u16_le(header, 6);
    if ver != 0x3130 && ver != 0x3230 {
        return 0;
    }
    let start = read_u32_le(header, HDR_OFF_START);
    write_u32_le_slice(app_hdr, APP_OFF_EIP, start);
    let mem_size = read_u32_le(header, HDR_OFF_MEM_SIZE);
    let i_end = read_u32_le(header, HDR_OFF_I_END);
    if mem_size < i_end {
        return 0;
    }
    if mem_size >= OS_BASE {
        return 0;
    }
    let pages_bytes: u32 = pages_free << 12;
    assert(pages_bytes == (pages_free as int * 0x1000) % 0x1_0000_0000) by (bit_vector)
        requires
            pages_bytes == pages_free << 12u32;
    if mem_size >= pages_bytes {
        return 0;
    }
    let stack_top = read_u32_le(header, HDR_OFF_STACK_TOP);
    let i_param = read_u32_le(header, HDR_OFF_I_PARAM);
    let i_icon = read_u32_le(header, HDR_OFF_I_ICON);
    write_u32_le_slice(app_hdr, APP_OFF_EMEM, mem_size);
    write_u32_le_slice(app_hdr, APP_OFF_ESP, stack_top);
    write_u32_le_slice(app_hdr, APP_OFF_CMDLINE, i_param);
    write_u32_le_slice(app_hdr, APP_OFF_PATH, i_icon);
    write_u32_le_slice(app_hdr, APP_OFF_EDATA, i_end);
    header_addr
}

/// A rejected banner leaves the loader block untouched.
pub proof fn law_bad_banner_no_write(h: Seq<u8>, app: Seq<u8>, pages_free: u32)
    requires
        !banner_ok(h),
    ensures
        app_hdr_after(h, app, pages_free) == app,
{
}

} // verus!
