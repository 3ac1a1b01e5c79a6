//! GUI glyph rasterisation: one font glyph drawn at a scale, with optional
//! edge smoothing.
//!
//! Memory is modelled as the flat 32-bit address space of the kernel: the
//! destination `screen` slice is indexed by pixel address and address
//! arithmetic wraps modulo 2^32, the glyph rows are read from `font`, and
//! glyph bytes outside the font read as blank.
//! A drawing is described by a canvas `Option<Seq<u8>>` that becomes `None`
//! as soon as a pixel access falls outside the screen.

use vstd::prelude::*;
use crate::le::{le_u32, put_u32, read_u32_le, write_u32_le_slice};
use crate::font::{anti_aliasing, spec_anti_aliasing};
use crate::pixel::{fasm_subpixel_left, fasm_subpixel_right, oracle_subpixel_left,
    oracle_subpixel_right, spec_subpixel_left, spec_subpixel_right};

verus! {

/// Parameters of one glyph drawing (ten dwords).
#[derive(Clone, Copy)]
pub struct DrawCharCtx {
    /// Font colour.
    pub color: u32,
    /// Scale: each glyph bit becomes a `multiplier` x `multiplier` square.
    pub multiplier: u32,
    /// Address of the glyph's top-left pixel in the screen.
    pub buffer: u32,
    /// Index of the glyph's first row byte in the font.
    pub glyph: u32,
    /// Number of glyph rows.
    pub rows: u32,
    /// Bytes from one pixel row to the next.
    pub width_x: u32,
    /// Offset from the drawing buffer to the screen; non-zero means the
    /// neighbouring colours for smoothing come from the getpixel hook.
    pub delta_to_screen: u32,
    /// Smoothing mode (low byte): 0 off, 1 anti-aliasing, otherwise sub-pixel.
    pub smoothing: u32,
    /// Kernel getpixel thunk; only its presence matters here.
    pub getpixel: u32,
    /// Register value whose upper bytes join the first glyph row.
    pub edx_in: u32,
}

/// Store `v` as the pixel at address `at`; `None` if the pixel is off screen.
pub open spec fn store(c: Option<Seq<u8>>, at: u32, v: u32) -> Option<Seq<u8>> {
    match c {
        Some(s) => if at + 4 <= s.len() { Some(put_u32(s, at as int, v)) } else { None },
        None => None,
    }
}

/// `fill_eax_down`: the pixels `edi + 4 * n`, ..., `edi + 4`, `edi` set to
/// `color`, in that order; nothing when `n` is negative as a signed dword.
pub open spec fn fill_down(c: Option<Seq<u8>>, edi: u32, n: u32, color: u32) -> Option<Seq<u8>>
    decreases n,
{
    if n >= 0x8000_0000 {
        c
    } else {
        let c1 = store(c, edi.wrapping_add(n.wrapping_mul(4)), color);
        if n == 0 { c1 } else { fill_down(c1, edi, (n - 1) as u32, color) }
    }
}

/// One pixel row step of a staircase: down (toward higher addresses) or up.
pub open spec fn row_step(edi: u32, w: u32, down: bool) -> u32 {
    if down { edi.wrapping_add(w) } else { edi.wrapping_sub(w) }
}

/// A staircase of shrinking runs: run `n`, `n - 1`, ..., `0` each filled by
/// [`fill_down`], one row apart (two rows each when `double`), the start
/// moving by `col` bytes after each step.
pub open spec fn stairs(c: Option<Seq<u8>>, edi: u32, n: u32, w: u32, down: bool, col: u32,
    double: bool, color: u32) -> Option<Seq<u8>>
    decreases n,
{
    let c1 = fill_down(c, edi, n, color);
    let e1 = row_step(edi, w, down);
    let c2 = if double { fill_down(c1, e1, n, color) } else { c1 };
    let e2 = if double { row_step(e1, w, down) } else { e1 };
    if n >= 0x8000_0000 || n == 0 {
        c2
    } else {
        stairs(c2, e2.wrapping_add(col), (n - 1) as u32, w, down, col, double, color)
    }
}

/// The `m` x `m` block of rows starting at `edi`: `rows` rows of `fill_down(n)`.
pub open spec fn block(c: Option<Seq<u8>>, edi: u32, rows: u32, n: u32, w: u32, color: u32) -> Option<Seq<u8>>
    decreases rows,
{
    if rows == 0 {
        c
    } else {
        block(fill_down(c, edi, n, color), edi.wrapping_add(w), (rows - 1) as u32, n, w, color)
    }
}

/// A failed canvas stays failed through a store.
proof fn lemma_store_none(at: u32, v: u32)
    ensures
        store(None, at, v) is None,
{
}

/// A failed canvas stays failed through a fill.
proof fn lemma_fill_down_none(edi: u32, n: u32, color: u32)
    ensures
        fill_down(None, edi, n, color) is None,
    decreases n,
{
    if n < 0x8000_0000 && n > 0 {
        lemma_fill_down_none(edi, (n - 1) as u32, color);
    }
}

/// A failed canvas stays failed through a staircase.
proof fn lemma_stairs_none(edi: u32, n: u32, w: u32, down: bool, col: u32, double: bool, color: u32)
    ensures
        stairs(None, edi, n, w, down, col, double, color) is None,
    decreases n,
{
    lemma_fill_down_none(edi, n, color);
    lemma_fill_down_none(row_step(edi, w, down), n, color);
    if !(n >= 0x8000_0000 || n == 0) {
        let e1 = row_step(edi, w, down);
        let e2 = if double { row_step(e1, w, down) } else { e1 };
        lemma_stairs_none(e2.wrapping_add(col), (n - 1) as u32, w, down, col, double, color);
    }
}

/// A failed canvas stays failed through a block.
proof fn lemma_block_none(edi: u32, rows: u32, n: u32, w: u32, color: u32)
    ensures
        block(None, edi, rows, n, w, color) is None,
    decreases rows,
{
    if rows > 0 {
        lemma_fill_down_none(edi, n, color);
        lemma_block_none(edi.wrapping_add(w), (rows - 1) as u32, n, w, color);
    }
}

/// Write `v` as the pixel at address `at`.
fn store_pix(screen: &mut [u8], at: u32, v: u32)
    requires
        store(Some(old(screen)@), at, v) is Some,
    ensures
        Some(final(screen)@) == store(Some(old(screen)@), at, v),
{
    write_u32_le_slice(screen, at as usize, v);
}

/// Fill the pixels `edi + 4 * eax` down to `edi` with `color`.
fn fill_eax_down(screen: &mut [u8], edi: u32, eax: u32, color: u32)
    requires
        fill_down(Some(old(screen)@), edi, eax, color) is Some,
    ensures
        Some(final(screen)@) == fill_down(Some(old(screen)@), edi, eax, color),
{
    if eax >= 0x8000_0000 {
        return;
    }
    let ghost target = fill_down(Some(old(screen)@), edi, eax, color);
    let mut k: u32 = eax;
    loop
        invariant_except_break
            k < 0x8000_0000,
            fill_down(Some(screen@), edi, k, color) == target,
        invariant
            target is Some,
        ensures
            Some(screen@) == target,
        decreases k,
    {
        let at = edi.wrapping_add(k.wrapping_mul(4));
        let ghost before = screen@;
        proof {
            if store(Some(before), at, color) is None {
                lemma_store_none(at, color);
                if k > 0 {
                    lemma_fill_down_none(edi, (k - 1) as u32, color);
                }
            }
        }
        assert(fill_down(Some(before), edi, k, color) == if k == 0 {
            store(Some(before), at, color)
        } else {
            fill_down(store(Some(before), at, color), edi, (k - 1) as u32, color)
        });
        store_pix(screen, at, color);
        if k == 0 {
            break;
        }
        k = k - 1;
    }
}

/// Draw a staircase (see [`stairs`]).
fn staircase(screen: &mut [u8], edi: u32, n: u32, w: u32, down: bool, col: u32, double: bool, color: u32)
    requires
        stairs(Some(old(screen)@), edi, n, w, down, col, double, color) is Some,
    ensures
        Some(final(screen)@) == stairs(Some(old(screen)@), edi, n, w, down, col, double, color),
{
    let ghost target = stairs(Some(old(screen)@), edi, n, w, down, col, double, color);
    let mut e = edi;
    let mut k: u32 = n;
    loop
        invariant_except_break
            stairs(Some(screen@), e, k, w, down, col, double, color) == target,
        invariant
            target is Some,
        ensures
            Some(screen@) == target,
        decreases k,
    {
        let ghost s0 = screen@;
        let ghost e0 = e;
        proof {
            if fill_down(Some(screen@), e, k, color) is None {
                lemma_fill_down_none(row_step(e, w, down), k, color);
                let e1 = row_step(e, w, down);
                let e2 = if double { row_step(e1, w, down) } else { e1 };
                lemma_stairs_none(e2.wrapping_add(col), (k - 1) as u32, w, down, col, double, color);
            }
        }
        fill_eax_down(screen, e, k, color);
        e = if down { e.wrapping_add(w) } else { e.wrapping_sub(w) };
        if double {
            proof {
                if fill_down(Some(screen@), e, k, color) is None {
                    let e2 = row_step(e, w, down);
                    lemma_stairs_none(e2.wrapping_add(col), (k - 1) as u32, w, down, col, double, color);
                }
            }
            fill_eax_down(screen, e, k, color);
            e = if down { e.wrapping_add(w) } else { e.wrapping_sub(w) };
        }
        e = e.wrapping_add(col);
        proof {
            let c1 = fill_down(Some(s0), e0, k, color);
            let e1 = row_step(e0, w, down);
            let c2 = if double { fill_down(c1, e1, k, color) } else { c1 };
            let e2 = if double { row_step(e1, w, down) } else { e1 };
            assert(Some(screen@) == c2);
            assert(e == e2.wrapping_add(col));
        }
        if k >= 0x8000_0000 || k == 0 {
            break;
        }
        k = k - 1;
    }
}

/// Draw a block of `rows` pixel rows (see [`block`]).
fn fill_block(screen: &mut [u8], edi: u32, rows: u32, n: u32, w: u32, color: u32)
    requires
        block(Some(old(screen)@), edi, rows, n, w, color) is Some,
    ensures
        Some(final(screen)@) == block(Some(old(screen)@), edi, rows, n, w, color),
{
    let ghost target = block(Some(old(screen)@), edi, rows, n, w, color);
    let mut e = edi;
    let mut k: u32 = rows;
    while k > 0
        invariant
            block(Some(screen@), e, k, n, w, color) == target,
            target is Some,
        decreases k,
    {
        proof {
            if fill_down(Some(screen@), e, n, color) is None {
                lemma_block_none(e.wrapping_add(w), (k - 1) as u32, n, w, color);
            }
        }
        fill_eax_down(screen, e, n, color);
        e = e.wrapping_add(w);
        k = k - 1;
    }
}


/// Font byte `i`; outside the font the glyph reads as blank.
pub open spec fn font_byte(gl: Seq<u8>, i: int) -> u8 {
    if 0 <= i < gl.len() { gl[i] } else { 0 }
}

/// Bit `bit` of the glyph bytes starting at `base + disp` (bit 0 is the low
/// bit of that byte; higher bits run into the following bytes).
pub open spec fn bt(gl: Seq<u8>, base: int, disp: int, bit: u32) -> bool {
    (font_byte(gl, base + disp + (bit / 8) as int) >> ((bit % 8) as u8)) & 1u8 == 1u8
}

/// Read font byte `i` (see [`font_byte`]).
fn read_font(font: &[u8], i: u64) -> (r: u8)
    ensures
        r == font_byte(font@, i as int),
{
    if i < font.len() as u64 { font[i as usize] } else { 0 }
}

/// Read one glyph bit (see [`bt`]).
fn bt_mem(font: &[u8], base: u64, disp: i8, bit: u32) -> (r: bool)
    requires
        -2 <= disp <= 2,
        base <= 0x2_0000_0000,
    ensures
        r == bt(font@, base as int, disp as int, bit),
{
    let at: u64 = base + (bit / 8) as u64;
    if disp < 0 && at < ((0 - disp) as u64) {
        return (0u8 >> ((bit % 8) as u8)) & 1u8 == 1u8;
    }
    let idx: u64 = if disp >= 0 { at + (disp as u64) } else { at - ((0 - disp) as u64) };
    (read_font(font, idx) >> ((bit % 8) as u8)) & 1u8 == 1u8
}

/// The glyph neighbourhood of bit `b` in the row at `g` that makes the
/// one-pixel renderer smooth the pixel left of it.
pub open spec fn left_blend(gl: Seq<u8>, g: int, b: u32) -> bool {
    let tail = bt(gl, g, -1, (b - 1) as u32) && (!bt(gl, g, -1, b)
        || (!bt(gl, g, 1, b) && (b < 2 || !bt(gl, g, -1, (b - 2) as u32))));
    &&& b >= 1
    &&& !bt(gl, g, 0, (b - 1) as u32)
    &&& !(b >= 2 && bt(gl, g, 0, (b - 2) as u32))
    &&& if bt(gl, g, 1, (b - 1) as u32) {
        !bt(gl, g, 1, b) || (!bt(gl, g, -1, b) && (b < 2 || !bt(gl, g, 1, (b - 2) as u32) || tail))
    } else {
        tail
    }
}

/// The glyph neighbourhood of bit `b` that makes the one-pixel renderer smooth
/// the pixel right of it.
pub open spec fn right_blend(gl: Seq<u8>, g: int, b: u32) -> bool {
    let tail = bt(gl, g, -1, (b + 1) as u32) && (!bt(gl, g, -1, b)
        || (!bt(gl, g, 1, b) && !bt(gl, g, -1, (b + 2) as u32)));
    &&& !bt(gl, g, 0, (b + 1) as u32)
    &&& !bt(gl, g, 0, (b + 2) as u32)
    &&& if bt(gl, g, 1, (b + 1) as u32) {
        !bt(gl, g, 1, b) || (!bt(gl, g, -1, b) && (!bt(gl, g, 1, (b + 2) as u32) || tail))
    } else {
        tail
    }
}

/// A corner fill of the scaled renderer: none, a single staircase, or a
/// staircase of doubled rows.
#[derive(Clone, Copy, PartialEq, Eq, Structural)]
pub enum Edge {
    Skip,
    Low,
    High,
}

/// The corner filled below-left of bit `b` (inside the cell of bit `b - 1`),
/// given that bit `b - 1` of the row is clear.
pub open spec fn left_down(gl: Seq<u8>, g: int, b: u32) -> Edge {
    if !bt(gl, g, 1, (b - 1) as u32) {
        Edge::Skip
    } else if !bt(gl, g, 1, b) {
        if !bt(gl, g, -1, b) || bt(gl, g, -2, b) || bt(gl, g, -1, (b - 1) as u32) {
            Edge::Low
        } else if b < 2 {
            Edge::High
        } else if bt(gl, g, -2, (b - 2) as u32) {
            Edge::Low
        } else {
            Edge::High
        }
    } else if bt(gl, g, -1, b) {
        Edge::Skip
    } else if b < 2 {
        Edge::Low
    } else if bt(gl, g, 1, (b - 2) as u32) {
        Edge::Skip
    } else {
        Edge::Low
    }
}

/// The corner filled above-left of bit `b`.
pub open spec fn left_up(gl: Seq<u8>, g: int, b: u32) -> Edge {
    if !bt(gl, g, -1, (b - 1) as u32) {
        Edge::Skip
    } else if !bt(gl, g, -1, b) {
        if bt(gl, g, 1, b) && bt(gl, g, 2, b) {
            Edge::Low
        } else if bt(gl, g, 1, (b - 1) as u32) {
            Edge::Low
        } else if b < 2 {
            Edge::High
        } else if bt(gl, g, 2, (b - 2) as u32) {
            Edge::Low
        } else {
            Edge::High
        }
    } else if bt(gl, g, 1, b) {
        Edge::Skip
    } else if b < 2 {
        Edge::Low
    } else if bt(gl, g, -1, (b - 2) as u32) {
        Edge::Skip
    } else {
        Edge::Low
    }
}

/// The corner filled below-right of bit `b` (inside the cell of bit `b + 1`),
/// given that bit `b + 1` of the row is clear; `Skip` means the upper corner
/// is examined instead.
pub open spec fn right_down(gl: Seq<u8>, g: int, b: u32) -> Edge {
    if !bt(gl, g, 1, (b + 1) as u32) {
        Edge::Skip
    } else if !bt(gl, g, 1, b) {
        if bt(gl, g, -1, b) && bt(gl, g, -2, b) {
            Edge::Low
        } else if bt(gl, g, -1, (b + 1) as u32) {
            Edge::Low
        } else if bt(gl, g, -2, (b + 2) as u32) {
            Edge::Low
        } else {
            Edge::High
        }
    } else if bt(gl, g, -1, b) {
        Edge::Skip
    } else if bt(gl, g, 1, (b + 2) as u32) {
        Edge::Skip
    } else {
        Edge::Low
    }
}

/// The corner filled above-right of bit `b`.
pub open spec fn right_up(gl: Seq<u8>, g: int, b: u32) -> Edge {
    if !bt(gl, g, -1, (b + 1) as u32) {
        Edge::Skip
    } else if !bt(gl, g, -1, b) {
        if bt(gl, g, 1, b) && bt(gl, g, 2, b) {
            Edge::Low
        } else if bt(gl, g, 1, (b + 1) as u32) {
            Edge::Low
        } else if bt(gl, g, 2, (b + 2) as u32) {
            Edge::Low
        } else {
            Edge::High
        }
    } else if bt(gl, g, 1, b) {
        Edge::Skip
    } else if bt(gl, g, -1, (b + 2) as u32) {
        Edge::Skip
    } else {
        Edge::Low
    }
}

/// Address of the top-left pixel of cell `col` in the row of cells at `row_base`.
pub open spec fn cell(row_base: u32, col: u32, m: u32) -> u32 {
    row_base.wrapping_add(col.wrapping_mul(m).wrapping_mul(4))
}

/// Address of the bottom-left pixel of the cell at `edi`.
pub open spec fn cell_bottom(edi: u32, m: u32, w: u32) -> u32 {
    edi.wrapping_add(w.wrapping_mul(m.wrapping_sub(1)))
}

/// A corner staircase of the kind `e` starting at `start`.
pub open spec fn corner(c: Option<Seq<u8>>, e: Edge, start: u32, m: u32, w: u32, down: bool, col: u32,
    color: u32) -> Option<Seq<u8>> {
    match e {
        Edge::Skip => c,
        Edge::Low => stairs(c, start, m.wrapping_sub(2), w, down, col, false, color),
        Edge::High => stairs(c, start, m.wrapping_sub(2), w, down, col, true, color),
    }
}

/// The corners left of bit `b` at scale `m`.
pub open spec fn left_side(c: Option<Seq<u8>>, gl: Seq<u8>, g: int, row_base: u32, b: u32, m: u32, w: u32,
    color: u32) -> Option<Seq<u8>> {
    if b == 0 || bt(gl, g, 0, (b - 1) as u32) {
        c
    } else {
        let left = cell(row_base, (b - 1) as u32, m);
        let c1 = corner(c, left_down(gl, g, b), cell_bottom(left, m, w).wrapping_add(4), m, w, false, 4, color);
        corner(c1, left_up(gl, g, b), left.wrapping_add(4), m, w, true, 4, color)
    }
}

/// The corners right of bit `b` at scale `m`.
pub open spec fn right_side(c: Option<Seq<u8>>, gl: Seq<u8>, g: int, row_base: u32, b: u32, m: u32, w: u32,
    color: u32) -> Option<Seq<u8>> {
    let right = cell(row_base, (b + 1) as u32, m);
    if bt(gl, g, 0, (b + 1) as u32) {
        c
    } else if right_down(gl, g, b) == Edge::Skip {
        corner(c, right_up(gl, g, b), right, m, w, true, 0, color)
    } else {
        corner(c, right_down(gl, g, b), cell_bottom(right, m, w), m, w, false, 0, color)
    }
}

/// Bit `b` of a row drawn at scale `m`: its `m` x `m` cell, then the corners
/// that round off the diagonals to its left and right.
pub open spec fn scaled_bit(c: Option<Seq<u8>>, gl: Seq<u8>, g: int, row_base: u32, b: u32, m: u32, w: u32,
    color: u32) -> Option<Seq<u8>> {
    let c1 = block(c, cell(row_base, b, m), m, m.wrapping_sub(1), w, color);
    let c2 = left_side(c1, gl, g, row_base, b, m, w, color);
    right_side(c2, gl, g, row_base, b, m, w, color)
}

/// A failed canvas stays failed through a corner.
proof fn lemma_corner_none(e: Edge, start: u32, m: u32, w: u32, down: bool, col: u32, color: u32)
    ensures
        corner(None, e, start, m, w, down, col, color) is None,
{
    lemma_stairs_none(start, m.wrapping_sub(2), w, down, col, false, color);
    lemma_stairs_none(start, m.wrapping_sub(2), w, down, col, true, color);
}

/// Draw a corner staircase.
fn draw_corner(screen: &mut [u8], e: Edge, start: u32, m: u32, w: u32, down: bool, col: u32, color: u32)
    requires
        corner(Some(old(screen)@), e, start, m, w, down, col, color) is Some,
    ensures
        Some(final(screen)@) == corner(Some(old(screen)@), e, start, m, w, down, col, color),
{
    match e {
        Edge::Skip => {},
        Edge::Low => staircase(screen, start, m.wrapping_sub(2), w, down, col, false, color),
        Edge::High => staircase(screen, start, m.wrapping_sub(2), w, down, col, true, color),
    }
}

/// Which corner to fill below-left of bit `b`, read as the scaled renderer
/// reads the glyph.
fn scaled_check_left_down(font: &[u8], g: u64, b: u32) -> (r: Edge)
    requires
        g <= 0x2_0000_0000,
        1 <= b <= 31,
    ensures
        r == left_down(font@, g as int, b),
{
    let a = b - 1;
    if !bt_mem(font, g, 1, a) {
        return Edge::Skip;
    }
    if !bt_mem(font, g, 1, b) {
        if !bt_mem(font, g, -1, b) || bt_mem(font, g, -2, b) || bt_mem(font, g, -1, a) {
            return Edge::Low;
        }
        if a < 1 {
            return Edge::High;
        }
        if bt_mem(font, g, -2, a - 1) {
            return Edge::Low;
        }
        return Edge::High;
    }
    if bt_mem(font, g, -1, b) {
        return Edge::Skip;
    }
    if a < 1 {
        return Edge::Low;
    }
    if bt_mem(font, g, 1, a - 1) {
        return Edge::Skip;
    }
    Edge::Low
}

/// Which corner to fill above-left of bit `b`.
fn scaled_check_left_up(font: &[u8], g: u64, b: u32) -> (r: Edge)
    requires
        g <= 0x2_0000_0000,
        1 <= b <= 31,
    ensures
        r == left_up(font@, g as int, b),
{
    let a = b - 1;
    if !bt_mem(font, g, -1, a) {
        return Edge::Skip;
    }
    if !bt_mem(font, g, -1, b) {
        if bt_mem(font, g, 1, b) && bt_mem(font, g, 2, b) {
            return Edge::Low;
        }
        if bt_mem(font, g, 1, a) {
            return Edge::Low;
        }
        if a < 1 {
            return Edge::High;
        }
        if bt_mem(font, g, 2, a - 1) {
            return Edge::Low;
        }
        return Edge::High;
    }
    if bt_mem(font, g, 1, b) {
        return Edge::Skip;
    }
    if a < 1 {
        return Edge::Low;
    }
    if bt_mem(font, g, -1, a - 1) {
        return Edge::Skip;
    }
    Edge::Low
}

/// Which corner to fill below-right of bit `b`.
fn scaled_check_right_down(font: &[u8], g: u64, b: u32) -> (r: Edge)
    requires
        g <= 0x2_0000_0000,
        b <= 31,
    ensures
        r == right_down(font@, g as int, b),
{
    let c = b + 1;
    if !bt_mem(font, g, 1, c) {
        return Edge::Skip;
    }
    if !bt_mem(font, g, 1, b) {
        if bt_mem(font, g, -1, b) && bt_mem(font, g, -2, b) {
            return Edge::Low;
        }
        if bt_mem(font, g, -1, c) {
            return Edge::Low;
        }
        if bt_mem(font, g, -2, c + 1) {
            return Edge::Low;
        }
        return Edge::High;
    }
    if bt_mem(font, g, -1, b) {
        return Edge::Skip;
    }
    if bt_mem(font, g, 1, c + 1) {
        return Edge::Skip;
    }
    Edge::Low
}

/// Which corner to fill above-right of bit `b`.
fn scaled_check_right_up(font: &[u8], g: u64, b: u32) -> (r: Edge)
    requires
        g <= 0x2_0000_0000,
        b <= 31,
    ensures
        r == right_up(font@, g as int, b),
{
    let c = b + 1;
    if !bt_mem(font, g, -1, c) {
        return Edge::Skip;
    }
    if !bt_mem(font, g, -1, b) {
        if bt_mem(font, g, 1, b) && bt_mem(font, g, 2, b) {
            return Edge::Low;
        }
        if bt_mem(font, g, 1, c) {
            return Edge::Low;
        }
        if bt_mem(font, g, 2, c + 1) {
            return Edge::Low;
        }
        return Edge::High;
    }
    if bt_mem(font, g, 1, b) {
        return Edge::Skip;
    }
    if bt_mem(font, g, -1, c + 1) {
        return Edge::Skip;
    }
    Edge::Low
}


/// A failed canvas stays failed through the corners of a bit.
proof fn lemma_sides_none(gl: Seq<u8>, g: int, row_base: u32, b: u32, m: u32, w: u32, color: u32)
    ensures
        left_side(None, gl, g, row_base, b, m, w, color) is None,
        right_side(None, gl, g, row_base, b, m, w, color) is None,
{
    let left = cell(row_base, (b - 1) as u32, m);
    let right = cell(row_base, (b + 1) as u32, m);
    lemma_corner_none(left_down(gl, g, b), cell_bottom(left, m, w).wrapping_add(4), m, w, false, 4, color);
    lemma_corner_none(left_up(gl, g, b), left.wrapping_add(4), m, w, true, 4, color);
    lemma_corner_none(right_up(gl, g, b), right, m, w, true, 0, color);
    lemma_corner_none(right_down(gl, g, b), cell_bottom(right, m, w), m, w, false, 0, color);
}

/// Round off the diagonals left of bit `b` (see [`left_side`]).
fn scaled_check_left(screen: &mut [u8], font: &[u8], g: u64, row_base: u32, b: u32, m: u32, w: u32,
    color: u32)
    requires
        g <= 0x2_0000_0000,
        b <= 31,
        left_side(Some(old(screen)@), font@, g as int, row_base, b, m, w, color) is Some,
    ensures
        Some(final(screen)@) == left_side(Some(old(screen)@), font@, g as int, row_base, b, m, w, color),
{
    if b == 0 {
        return;
    }
    let a = b - 1;
    if bt_mem(font, g, 0, a) {
        return;
    }
    let left = row_base.wrapping_add(a.wrapping_mul(m).wrapping_mul(4));
    let down = scaled_check_left_down(font, g, b);
    let up = scaled_check_left_up(font, g, b);
    proof {
        if corner(Some(screen@), down, cell_bottom(left, m, w).wrapping_add(4), m, w, false, 4, color) is None {
            lemma_corner_none(up, left.wrapping_add(4), m, w, true, 4, color);
        }
    }
    draw_corner(screen, down, left.wrapping_add(w.wrapping_mul(m.wrapping_sub(1))).wrapping_add(4), m, w,
        false, 4, color);
    draw_corner(screen, up, left.wrapping_add(4), m, w, true, 4, color);
}

/// Round off the diagonals right of bit `b` (see [`right_side`]).
fn scaled_check_right(screen: &mut [u8], font: &[u8], g: u64, row_base: u32, b: u32, m: u32, w: u32,
    color: u32)
    requires
        g <= 0x2_0000_0000,
        b <= 31,
        right_side(Some(old(screen)@), font@, g as int, row_base, b, m, w, color) is Some,
    ensures
        Some(final(screen)@) == right_side(Some(old(screen)@), font@, g as int, row_base, b, m, w, color),
{
    let c = b + 1;
    if bt_mem(font, g, 0, c) {
        return;
    }
    let right = row_base.wrapping_add(c.wrapping_mul(m).wrapping_mul(4));
    let down = scaled_check_right_down(font, g, b);
    match down {
        Edge::Skip => {
            let up = scaled_check_right_up(font, g, b);
            draw_corner(screen, up, right, m, w, true, 0, color);
        },
        _ => {
            draw_corner(screen, down, right.wrapping_add(w.wrapping_mul(m.wrapping_sub(1))), m, w, false, 0, color);
        },
    }
}

/// Bit `b` at scale `m`: its cell, then the corners on both sides (see
/// [`scaled_bit`]).
fn scaled_square_and_smooth(screen: &mut [u8], font: &[u8], g: u64, row_base: u32, b: u32, m: u32, w: u32,
    color: u32)
    requires
        g <= 0x2_0000_0000,
        b <= 31,
        scaled_bit(Some(old(screen)@), font@, g as int, row_base, b, m, w, color) is Some,
    ensures
        Some(final(screen)@) == scaled_bit(Some(old(screen)@), font@, g as int, row_base, b, m, w, color),
{
    proof {
        lemma_sides_none(font@, g as int, row_base, b, m, w, color);
        if block(Some(screen@), cell(row_base, b, m), m, m.wrapping_sub(1), w, color) is None {
            assert(left_side(None, font@, g as int, row_base, b, m, w, color) is None);
        }
    }
    fill_block(screen, row_base.wrapping_add(b.wrapping_mul(m).wrapping_mul(4)), m, m.wrapping_sub(1), w, color);
    proof {
        if left_side(Some(screen@), font@, g as int, row_base, b, m, w, color) is None {
            assert(right_side(None, font@, g as int, row_base, b, m, w, color) is None);
        }
    }
    scaled_check_left(screen, font, g, row_base, b, m, w, color);
    scaled_check_right(screen, font, g, row_base, b, m, w, color);
}


/// Whether the one-pixel renderer smooths the pixel left of bit `b` (see
/// [`left_blend`]), read as it reads the glyph.
fn smooth_left_1x(font: &[u8], g: u64, b: u32) -> (r: bool)
    requires
        g <= 0x2_0000_0000,
        b <= 31,
    ensures
        r == left_blend(font@, g as int, b),
{
    if b == 0 {
        return false;
    }
    let a = b - 1;
    if bt_mem(font, g, 0, a) {
        return false;
    }
    if a >= 1 && bt_mem(font, g, 0, a - 1) {
        return false;
    }
    if bt_mem(font, g, 1, a) {
        if !bt_mem(font, g, 1, b) {
            return true;
        }
        if bt_mem(font, g, -1, b) {
            return false;
        }
        if a < 1 {
            return true;
        }
        if !bt_mem(font, g, 1, a - 1) {
            return true;
        }
    }
    if !bt_mem(font, g, -1, a) {
        return false;
    }
    if !bt_mem(font, g, -1, b) {
        return true;
    }
    if bt_mem(font, g, 1, b) {
        return false;
    }
    if a < 1 {
        return true;
    }
    !bt_mem(font, g, -1, a - 1)
}

/// Whether the one-pixel renderer smooths the pixel right of bit `b` (see
/// [`right_blend`]).
fn smooth_right_1x(font: &[u8], g: u64, b: u32) -> (r: bool)
    requires
        g <= 0x2_0000_0000,
        b <= 31,
    ensures
        r == right_blend(font@, g as int, b),
{
    let c = b + 1;
    if bt_mem(font, g, 0, c) {
        return false;
    }
    if bt_mem(font, g, 0, c + 1) {
        return false;
    }
    if bt_mem(font, g, 1, c) {
        if !bt_mem(font, g, 1, b) {
            return true;
        }
        if bt_mem(font, g, -1, b) {
            return false;
        }
        if !bt_mem(font, g, 1, c + 1) {
            return true;
        }
    }
    if !bt_mem(font, g, -1, c) {
        return false;
    }
    if !bt_mem(font, g, -1, b) {
        return true;
    }
    if bt_mem(font, g, 1, b) {
        return false;
    }
    !bt_mem(font, g, -1, c + 1)
}

/// Whether a getpixel hook can be called on every index and answers the same
/// index the same way.
pub open spec fn hook_ok<F: Fn(u32) -> u32>(host: Option<F>) -> bool {
    match host {
        Some(h) => {
            &&& forall|i: u32| call_requires(h, (i,))
            &&& forall|i: u32, r1: u32, r2: u32|
                #![trigger call_ensures(h, (i,), r1), call_ensures(h, (i,), r2)]
                call_ensures(h, (i,), r1) && call_ensures(h, (i,), r2) ==> r1 == r2
        },
        None => true,
    }
}

/// The colour the getpixel hook answers for pixel index `i`; 0 without a hook.
pub open spec fn hook_value<F: Fn(u32) -> u32>(host: Option<F>, i: u32) -> u32 {
    match host {
        Some(h) => choose|r: u32| call_ensures(h, (i,), r),
        None => 0,
    }
}

/// Ask the getpixel hook for the colour of screen pixel `index`.
///
/// Without a host hook the kernel thunk would answer; outside the kernel
/// there is none, and the answer is 0.
fn call_getpixel<F: Fn(u32) -> u32>(index: u32, host: &Option<F>) -> (r: u32)
    requires
        hook_ok(*host),
    ensures
        r == hook_value(*host, index),
{
    match host {
        Some(h) => {
            let r = h(index);
            proof {
                let c = choose|x: u32| call_ensures(*h, (index,), x);
                assert(call_ensures(*h, (index,), c));
            }
            r
        },
        None => 0,
    }
}

/// The colour next to pixel `pix` (`toward` is +4 or -4 as a dword): read from
/// the drawing buffer, or with a screen delta from the getpixel hook.
pub open spec fn neighbor(s: Seq<u8>, pix: u32, toward: u32, delta: u32, src: spec_fn(u32) -> u32) -> u32 {
    if delta != 0 {
        src(pix.wrapping_add(delta).wrapping_add(toward) >> 2u32)
    } else {
        le_u32(s, pix.wrapping_add(toward) as int)
    }
}

/// The smoothed colour of a neighbour `nb` of a font pixel: the anti-alias
/// blend in mode 1, otherwise the sub-pixel blend of that side.
pub open spec fn blend_value(smooth: u8, nb: u32, color: u32, left: bool) -> u32 {
    if smooth == 1 {
        spec_anti_aliasing(nb, color)
    } else if left {
        spec_subpixel_left(nb, color)
    } else {
        spec_subpixel_right(nb, color)
    }
}

/// The neighbour of `pix` on one side replaced by its smoothed colour.
pub open spec fn blend_at(c: Option<Seq<u8>>, pix: u32, left: bool, smooth: u8, color: u32, delta: u32,
    src: spec_fn(u32) -> u32) -> Option<Seq<u8>> {
    let toward: u32 = if left { 0xFFFF_FFFC } else { 4 };
    match c {
        Some(s) => {
            let at = pix.wrapping_add(toward);
            if at + 4 <= s.len() {
                Some(put_u32(s, at as int, blend_value(smooth, neighbor(s, pix, toward, delta, src), color, left)))
            } else {
                None
            }
        },
        None => None,
    }
}

/// The spec view of a getpixel hook.
pub open spec fn hook_fn<F: Fn(u32) -> u32>(host: Option<F>) -> spec_fn(u32) -> u32 {
    |i: u32| hook_value(host, i)
}

/// The colour next to pixel `pix` (see [`neighbor`]).
fn neighbor_color<F: Fn(u32) -> u32>(screen: &[u8], pix: u32, delta: u32, host: &Option<F>, toward: u32) -> (r: u32)
    requires
        hook_ok(*host),
        pix.wrapping_add(toward) + 4 <= screen@.len(),
    ensures
        r == neighbor(screen@, pix, toward, delta, hook_fn(*host)),
{
    let mut eax = read_u32_le(screen, pix.wrapping_add(toward) as usize);
    if delta != 0 {
        let idx = pix.wrapping_add(delta).wrapping_add(toward) >> 2u32;
        eax = call_getpixel(idx, host);
    }
    eax
}

/// Smooth the pixel left of font pixel `pix`.
fn blend_left<F: Fn(u32) -> u32>(screen: &mut [u8], pix: u32, color: u32, delta: u32, host: &Option<F>,
    smooth: u8, oracle: bool)
    requires
        hook_ok(*host),
        blend_at(Some(old(screen)@), pix, true, smooth, color, delta, hook_fn(*host)) is Some,
    ensures
        Some(final(screen)@) == blend_at(Some(old(screen)@), pix, true, smooth, color, delta, hook_fn(*host)),
{
    let mut eax = neighbor_color(screen, pix, delta, host, 0xFFFF_FFFC);
    if smooth == 1 {
        eax = anti_aliasing(eax, color);
    } else if oracle {
        eax = oracle_subpixel_left(eax, color);
    } else {
        eax = fasm_subpixel_left(eax, color);
    }
    write_u32_le_slice(screen, pix.wrapping_add(0xFFFF_FFFC) as usize, eax);
}

/// Smooth the pixel right of font pixel `pix`.
fn blend_right<F: Fn(u32) -> u32>(screen: &mut [u8], pix: u32, color: u32, delta: u32, host: &Option<F>,
    smooth: u8, oracle: bool)
    requires
        hook_ok(*host),
        blend_at(Some(old(screen)@), pix, false, smooth, color, delta, hook_fn(*host)) is Some,
    ensures
        Some(final(screen)@) == blend_at(Some(old(screen)@), pix, false, smooth, color, delta, hook_fn(*host)),
{
    let mut eax = neighbor_color(screen, pix, delta, host, 4);
    if smooth == 1 {
        eax = anti_aliasing(eax, color);
    } else if oracle {
        eax = oracle_subpixel_right(eax, color);
    } else {
        eax = fasm_subpixel_right(eax, color);
    }
    write_u32_le_slice(screen, pix.wrapping_add(4) as usize, eax);
}

/// Bit `b` of a row drawn one pixel per bit at `pix`: the pixel, then with
/// smoothing on the smoothed neighbours the glyph calls for.
pub open spec fn one_x_bit(c: Option<Seq<u8>>, gl: Seq<u8>, g: int, pix: u32, b: u32, smooth: u8, color: u32,
    delta: u32, src: spec_fn(u32) -> u32) -> Option<Seq<u8>> {
    let c1 = store(c, pix, color);
    if smooth == 0 {
        c1
    } else {
        let c2 = if left_blend(gl, g, b) { blend_at(c1, pix, true, smooth, color, delta, src) } else { c1 };
        if right_blend(gl, g, b) { blend_at(c2, pix, false, smooth, color, delta, src) } else { c2 }
    }
}

/// Draw bit `b` one pixel per bit (see [`one_x_bit`]).
fn one_x_pixel<F: Fn(u32) -> u32>(screen: &mut [u8], font: &[u8], g: u64, pix: u32, b: u32, smooth: u8,
    color: u32, delta: u32, host: &Option<F>, oracle: bool)
    requires
        g <= 0x2_0000_0000,
        b <= 31,
        hook_ok(*host),
        one_x_bit(Some(old(screen)@), font@, g as int, pix, b, smooth, color, delta, hook_fn(*host)) is Some,
    ensures
        Some(final(screen)@) == one_x_bit(Some(old(screen)@), font@, g as int, pix, b, smooth, color, delta,
            hook_fn(*host)),
{
    let ghost src = hook_fn(*host);
    proof {
        if store(Some(screen@), pix, color) is None {
            assert(blend_at(None, pix, true, smooth, color, delta, src) is None);
            assert(blend_at(None, pix, false, smooth, color, delta, src) is None);
        }
    }
    store_pix(screen, pix, color);
    if smooth != 0 {
        let left = smooth_left_1x(font, g, b);
        let right = smooth_right_1x(font, g, b);
        if left {
            proof {
                if blend_at(Some(screen@), pix, true, smooth, color, delta, src) is None {
                    assert(blend_at(None, pix, false, smooth, color, delta, src) is None);
                }
            }
            blend_left(screen, pix, color, delta, host, smooth, oracle);
        }
        if right {
            blend_right(screen, pix, color, delta, host, smooth, oracle);
        }
    }
}


/// Clearing the lowest set bit `b` of `e` makes it smaller and keeps every
/// other bit.
proof fn lemma_clear_bit(e: u32, b: u32)
    by (bit_vector)
    requires
        b < 32,
        (e >> b) & 1u32 == 1u32,
    ensures
        e & !(1u32 << b) < e,
        forall|j: u32| j < 32 ==> ((((e & !(1u32 << b)) >> j) & 1u32 == 1u32) == (((e >> j) & 1u32 == 1u32)
            && j != b)),
{
}

/// The lowest set bit of a non-zero `e`, and what is left once it is cleared.
pub proof fn lemma_lowest_bit(e: u32)
    requires
        e != 0,
    ensures
        e.trailing_zeros() < 32,
        (e >> e.trailing_zeros()) & 1u32 == 1u32,
        e & !(1u32 << e.trailing_zeros()) < e,
        forall|j: u32| j < 32 ==> ((((e & !(1u32 << e.trailing_zeros())) >> j) & 1u32 == 1u32) == (((e >> j)
            & 1u32 == 1u32) && j != e.trailing_zeros())),
{
    vstd::std_specs::bits::axiom_u32_trailing_zeros(e);
    lemma_clear_bit(e, e.trailing_zeros());
}

/// The low byte of the smoothing mode.
pub open spec fn smooth_mode(ctx: DrawCharCtx) -> u8 {
    (ctx.smoothing % 256) as u8
}

/// Bit `b` of a glyph row drawn at scale `esi`.
#[verifier::opaque]
pub open spec fn bit_paint(c: Option<Seq<u8>>, ctx: DrawCharCtx, gl: Seq<u8>, g: int, row_base: u32, b: u32,
    esi: u32, src: spec_fn(u32) -> u32) -> Option<Seq<u8>> {
    if esi == 1 {
        one_x_bit(c, gl, g, cell(row_base, b, 1), b, smooth_mode(ctx), ctx.color, ctx.delta_to_screen, src)
    } else {
        scaled_bit(c, gl, g, row_base, b, esi, ctx.width_x, ctx.color)
    }
}

/// The set bits `e` of one glyph row drawn lowest first, at scale `esi`
/// (one pixel per bit when `esi` is 1).
pub open spec fn row_paint(c: Option<Seq<u8>>, ctx: DrawCharCtx, gl: Seq<u8>, g: int, row_base: u32, e: u32,
    esi: u32, src: spec_fn(u32) -> u32) -> Option<Seq<u8>>
    decreases e,
{
    if e == 0 {
        c
    } else {
        let b = e.trailing_zeros();
        let c1 = bit_paint(c, ctx, gl, g, row_base, b, esi, src);
        proof {
            lemma_lowest_bit(e);
        }
        row_paint(c1, ctx, gl, g, row_base, e & !(1u32 << b), esi, src)
    }
}

/// The bits of glyph row `r`: the row byte, joined on the first row by the
/// upper bytes of the incoming register.
pub open spec fn row_bits(ctx: DrawCharCtx, gl: Seq<u8>, r: int) -> u32 {
    if r == 0 {
        (ctx.edx_in & 0xFFFF_FF00u32) | (font_byte(gl, ctx.glyph as int) as u32)
    } else {
        font_byte(gl, ctx.glyph + r) as u32
    }
}

/// Glyph rows `r..rows`, row `r` starting at pixel address `row_base`.
pub open spec fn rows_paint(c: Option<Seq<u8>>, ctx: DrawCharCtx, gl: Seq<u8>, r: int, row_base: u32, esi: u32,
    src: spec_fn(u32) -> u32) -> Option<Seq<u8>>
    decreases ctx.rows - r,
{
    if r >= ctx.rows || r < 0 {
        c
    } else {
        let c1 = row_paint(c, ctx, gl, ctx.glyph + r, row_base, row_bits(ctx, gl, r), esi, src);
        rows_paint(c1, ctx, gl, r + 1, row_base.wrapping_add(ctx.width_x.wrapping_mul(esi)), esi, src)
    }
}

/// The whole glyph drawn onto `s` at scale `esi`, with `src` answering for
/// screen pixels; `None` when a pixel falls outside `s`.
pub open spec fn draw_spec(s: Seq<u8>, ctx: DrawCharCtx, gl: Seq<u8>, src: spec_fn(u32) -> u32, esi: u32)
    -> Option<Seq<u8>> {
    rows_paint(Some(s), ctx, gl, 0, ctx.buffer, esi, src)
}

/// A failed canvas stays failed through one bit.
proof fn lemma_bit_none(ctx: DrawCharCtx, gl: Seq<u8>, g: int, row_base: u32, b: u32, esi: u32,
    src: spec_fn(u32) -> u32)
    ensures
        bit_paint(None, ctx, gl, g, row_base, b, esi, src) is None,
{
    reveal(bit_paint);
    lemma_block_none(cell(row_base, b, esi), esi, esi.wrapping_sub(1), ctx.width_x, ctx.color);
    lemma_sides_none(gl, g, row_base, b, esi, ctx.width_x, ctx.color);
}

/// A failed canvas stays failed through a row.
proof fn lemma_row_none(ctx: DrawCharCtx, gl: Seq<u8>, g: int, row_base: u32, e: u32, esi: u32,
    src: spec_fn(u32) -> u32)
    ensures
        row_paint(None, ctx, gl, g, row_base, e, esi, src) is None,
    decreases e,
{
    if e != 0 {
        let b = e.trailing_zeros();
        lemma_lowest_bit(e);
        lemma_bit_none(ctx, gl, g, row_base, b, esi, src);
        lemma_row_none(ctx, gl, g, row_base, e & !(1u32 << b), esi, src);
    }
}

/// A failed canvas stays failed through the remaining rows.
proof fn lemma_rows_none(ctx: DrawCharCtx, gl: Seq<u8>, r: int, row_base: u32, esi: u32,
    src: spec_fn(u32) -> u32)
    ensures
        rows_paint(None, ctx, gl, r, row_base, esi, src) is None,
    decreases ctx.rows - r,
{
    if !(r >= ctx.rows || r < 0) {
        lemma_row_none(ctx, gl, ctx.glyph + r, row_base, row_bits(ctx, gl, r), esi, src);
        lemma_rows_none(ctx, gl, r + 1, row_base.wrapping_add(ctx.width_x.wrapping_mul(esi)), esi, src);
    }
}

/// Draw bit `b` of a glyph row (see [`bit_paint`]).
fn draw_bit<F: Fn(u32) -> u32>(screen: &mut [u8], font: &[u8], ctx: &DrawCharCtx, g: u64, row_base: u32, b: u32,
    esi: u32, host: &Option<F>, oracle: bool)
    requires
        g <= 0x2_0000_0000,
        b < 32,
        hook_ok(*host),
        bit_paint(Some(old(screen)@), *ctx, font@, g as int, row_base, b, esi, hook_fn(*host)) is Some,
    ensures
        Some(final(screen)@) == bit_paint(Some(old(screen)@), *ctx, font@, g as int, row_base, b, esi,
            hook_fn(*host)),
{
    reveal(bit_paint);
    if esi == 1 {
        one_x_pixel(screen, font, g, row_base.wrapping_add(b.wrapping_mul(1).wrapping_mul(4)), b,
            (ctx.smoothing % 256) as u8, ctx.color, ctx.delta_to_screen, host, oracle);
    } else {
        scaled_square_and_smooth(screen, font, g, row_base, b, esi, ctx.width_x, ctx.color);
    }
}

/// Draw the set bits `e` of one glyph row (see [`row_paint`]).
fn draw_row<F: Fn(u32) -> u32>(screen: &mut [u8], font: &[u8], ctx: &DrawCharCtx, g: u64, row_base: u32,
    e_row: u32, esi: u32, host: &Option<F>, oracle: bool)
    requires
        g <= 0x2_0000_0000,
        hook_ok(*host),
        row_paint(Some(old(screen)@), *ctx, font@, g as int, row_base, e_row, esi, hook_fn(*host)) is Some,
    ensures
        Some(final(screen)@) == row_paint(Some(old(screen)@), *ctx, font@, g as int, row_base, e_row, esi,
            hook_fn(*host)),
{
    let ghost src = hook_fn(*host);
    let ghost target = row_paint(Some(old(screen)@), *ctx, font@, g as int, row_base, e_row, esi, src);
    let mut e = e_row;
    while e != 0
        invariant
            hook_ok(*host),
            src == hook_fn(*host),
                g <= 0x2_0000_0000,
            row_paint(Some(screen@), *ctx, font@, g as int, row_base, e, esi, src) == target,
            target is Some,
        decreases e,
    {
        let b = e.trailing_zeros();
        proof {
            lemma_lowest_bit(e);
            if bit_paint(Some(screen@), *ctx, font@, g as int, row_base, b, esi, src) is None {
                lemma_row_none(*ctx, font@, g as int, row_base, e & !(1u32 << b), esi, src);
            }
        }
        draw_bit(screen, font, ctx, g, row_base, b, esi, host, oracle);
        e = e & !(1u32 << b);
    }
}

/// Draw the glyph rows at scale `esi` (see [`draw_spec`]).
fn draw_rows<F: Fn(u32) -> u32>(ctx: &DrawCharCtx, font: &[u8], screen: &mut [u8], host: &Option<F>, esi: u32,
    oracle: bool)
    requires
        ctx.rows >= 1,
        hook_ok(*host),
        draw_spec(old(screen)@, *ctx, font@, hook_fn(*host), esi) is Some,
    ensures
        Some(final(screen)@) == draw_spec(old(screen)@, *ctx, font@, hook_fn(*host), esi),
{
    let ghost src = hook_fn(*host);
    let ghost target = draw_spec(old(screen)@, *ctx, font@, src, esi);
    let mut row_base = ctx.buffer;
    let mut g: u64 = ctx.glyph as u64;
    let mut r: u32 = 0;
    while r < ctx.rows
        invariant
            r <= ctx.rows,
            g == ctx.glyph + r,
            src == hook_fn(*host),
            hook_ok(*host),
                rows_paint(Some(screen@), *ctx, font@, r as int, row_base, esi, src) == target,
            target is Some,
        decreases ctx.rows - r,
    {
        let e: u32 = if r == 0 {
            (ctx.edx_in & 0xFFFF_FF00u32) | (read_font(font, g) as u32)
        } else {
            read_font(font, g) as u32
        };
        let next_base = row_base.wrapping_add(ctx.width_x.wrapping_mul(esi));
        proof {
            assert(e == row_bits(*ctx, font@, r as int));
            if row_paint(Some(screen@), *ctx, font@, g as int, row_base, e, esi, src) is None {
                lemma_rows_none(*ctx, font@, r + 1, next_base, esi, src);
            }
        }
        draw_row(screen, font, ctx, g, row_base, e, esi, host, oracle);
        g = g + 1;
        row_base = next_base;
        r = r + 1;
    }
}

/// Draw a glyph: each set bit of each row becomes a `multiplier` x
/// `multiplier` cell; at scale 1 the edges are smoothed as `smoothing` asks,
/// at larger scales the diagonals are rounded off.
pub fn draw_char<F: Fn(u32) -> u32>(ctx: &DrawCharCtx, font: &[u8], screen: &mut [u8], host: Option<F>)
    requires
        ctx.rows >= 1,
        hook_ok(host),
        draw_spec(old(screen)@, *ctx, font@, hook_fn(host), ctx.multiplier) is Some,
    ensures
        Some(final(screen)@) == draw_spec(old(screen)@, *ctx, font@, hook_fn(host), ctx.multiplier),
{
    draw_rows(ctx, font, screen, &host, ctx.multiplier, false);
}

/// The hook the kernel entry reads neighbouring screen colours from: the
/// getpixel thunk when one is installed.
pub open spec fn thunk_hook<F: Fn(u32) -> u32>(ctx: DrawCharCtx, thunk: F) -> Option<F> {
    if ctx.getpixel == 0 { None } else { Some(thunk) }
}

/// The kernel entry: the glyph drawn one pixel per bit whatever the
/// multiplier, neighbouring screen colours coming from the getpixel thunk
/// when one is installed (0 otherwise).
pub fn draw_char_ptr<F: Fn(u32) -> u32>(ctx: &DrawCharCtx, font: &[u8], screen: &mut [u8], thunk: F)
    requires
        ctx.rows >= 1,
        hook_ok(thunk_hook(*ctx, thunk)),
        draw_spec(old(screen)@, *ctx, font@, hook_fn(thunk_hook(*ctx, thunk)), 1) is Some,
    ensures
        Some(final(screen)@) == draw_spec(old(screen)@, *ctx, font@, hook_fn(thunk_hook(*ctx, thunk)), 1),
{
    let host = if ctx.getpixel == 0 { None } else { Some(thunk) };
    draw_rows(ctx, font, screen, &host, 1, false);
}

/// The same drawing with the blend weights computed by the independent
/// formulas rather than the `lea` sequences; the result is the same.
pub fn fasm_oracle_draw_char<F: Fn(u32) -> u32>(ctx: &DrawCharCtx, font: &[u8], screen: &mut [u8],
    host: Option<F>)
    requires
        ctx.rows >= 1,
        hook_ok(host),
        draw_spec(old(screen)@, *ctx, font@, hook_fn(host), ctx.multiplier) is Some,
    ensures
        Some(final(screen)@) == draw_spec(old(screen)@, *ctx, font@, hook_fn(host), ctx.multiplier),
{
    draw_rows(ctx, font, screen, &host, ctx.multiplier, true);
}


/// Address of the pixel of bit `b` of glyph row `r` drawn one pixel per bit.
pub open spec fn unit_pixel(ctx: DrawCharCtx, r: int, b: u32) -> int {
    (ctx.buffer + r * ctx.width_x + 4 * b) % 0x1_0000_0000
}

/// Whether a one-pixel drawing of the glyph sets the pixel at address `at`:
/// it is the pixel of a set bit of one of its rows.
pub open spec fn glyph_pixel(ctx: DrawCharCtx, gl: Seq<u8>, at: int) -> bool {
    exists|r: int, b: u32|
        0 <= r < ctx.rows && b < 32 && (row_bits(ctx, gl, r) >> b) & 1u32 == 1u32 && at == #[trigger] unit_pixel(
            ctx,
            r,
            b,
        )
}

/// Start of the pixel, aligned with the glyph's pixels, that byte `j` falls in.
pub open spec fn pixel_start(ctx: DrawCharCtx, j: int) -> int {
    j - (j - ctx.buffer) % 4
}

/// Byte `k` (0 to 3) of the little-endian `v`.
pub open spec fn color_byte(v: u32, k: int) -> u8 {
    if k == 0 {
        (v % 0x100) as u8
    } else if k == 1 {
        ((v / 0x100) % 0x100) as u8
    } else if k == 2 {
        ((v / 0x1_0000) % 0x100) as u8
    } else {
        (v / 0x100_0000) as u8
    }
}

/// The pixels set once rows `0..r` are drawn and, of row `r`, the set bits
/// that are no longer in `e`.
#[verifier::opaque]
spec fn drawn(ctx: DrawCharCtx, gl: Seq<u8>, r: int, e: u32, x: int) -> bool {
    ||| exists|r2: int, b: u32|
        0 <= r2 < r && b < 32 && (row_bits(ctx, gl, r2) >> b) & 1u32 == 1u32 && x == #[trigger] unit_pixel(
            ctx,
            r2,
            b,
        )
    ||| exists|b: u32|
        b < 32 && (row_bits(ctx, gl, r) >> b) & 1u32 == 1u32 && (e >> b) & 1u32 != 1u32 && x
            == #[trigger] unit_pixel(ctx, r, b)
}

/// `t` is `s` with the pixels [`drawn`] so far set to the font colour.
#[verifier::opaque]
spec fn painted(t: Seq<u8>, s: Seq<u8>, ctx: DrawCharCtx, gl: Seq<u8>, r: int, e: u32) -> bool {
    &&& t.len() == s.len()
    &&& forall|j: int|
        0 <= j < s.len() ==> #[trigger] t[j] == if drawn(ctx, gl, r, e, pixel_start(ctx, j)) {
            color_byte(ctx.color, j - pixel_start(ctx, j))
        } else {
            s[j]
        }
}

/// A wrapping dword addition is addition modulo 2^32.
proof fn lemma_wrapping_add(x: u32, y: u32)
    ensures
        x.wrapping_add(y) as int == (x + y) % 0x1_0000_0000,
{
}

/// The glyph's pixels are whole dwords apart when the row pitch is.
proof fn lemma_unit_pixel_aligned(ctx: DrawCharCtx, r: int, b: u32)
    requires
        0 <= r,
        ctx.width_x % 4 == 0,
    ensures
        (unit_pixel(ctx, r, b) - ctx.buffer) % 4 == 0,
        0 <= unit_pixel(ctx, r, b) < 0x1_0000_0000,
{
    let x: int = ctx.buffer + r * ctx.width_x + 4 * b;
    let k: int = (ctx.width_x / 4) as int;
    assert(r * ctx.width_x == (r * k) * 4) by (nonlinear_arith)
        requires ctx.width_x == 4 * k;
    vstd::arithmetic::div_mod::lemma_mod_multiples_basic(r * k, 4);
    assert(x == 0x1_0000_0000 * (x / 0x1_0000_0000) + x % 0x1_0000_0000) by (nonlinear_arith);
    assert((0x1_0000_0000 * (x / 0x1_0000_0000)) % 4 == 0) by (nonlinear_arith);
}

/// Setting one more glyph pixel (bit `b` of row `r`, still in `e`) keeps `t`
/// painted, with `b` now counted as drawn.
#[verifier::spinoff_prover]
proof fn lemma_paint_step(t: Seq<u8>, s: Seq<u8>, ctx: DrawCharCtx, gl: Seq<u8>, r: int, e: u32, b: u32)
    requires
        painted(t, s, ctx, gl, r, e),
        0 <= r,
        ctx.width_x % 4 == 0,
        b < 32,
        (e >> b) & 1u32 == 1u32,
        (row_bits(ctx, gl, r) >> b) & 1u32 == 1u32,
        unit_pixel(ctx, r, b) + 4 <= t.len(),
    ensures
        painted(put_u32(t, unit_pixel(ctx, r, b), ctx.color), s, ctx, gl, r, e & !(1u32 << b)),
{
    reveal(painted);
    reveal(drawn);
    let p = unit_pixel(ctx, r, b);
    let e2 = e & !(1u32 << b);
    let t2 = put_u32(t, p, ctx.color);
    lemma_clear_bit(e, b);
    lemma_unit_pixel_aligned(ctx, r, b);
    assert forall|x: int| #[trigger] drawn(ctx, gl, r, e2, x) == (drawn(ctx, gl, r, e, x) || x == p) by {
        if x == p {
            assert((e2 >> b) & 1u32 != 1u32);
            assert(x == unit_pixel(ctx, r, b));
        }
        if drawn(ctx, gl, r, e, x) {
            if exists|b2: u32|
                b2 < 32 && (row_bits(ctx, gl, r) >> b2) & 1u32 == 1u32 && (e >> b2) & 1u32 != 1u32 && x
                    == #[trigger] unit_pixel(ctx, r, b2) {
                let b2 = choose|b2: u32|
                    b2 < 32 && (row_bits(ctx, gl, r) >> b2) & 1u32 == 1u32 && (e >> b2) & 1u32 != 1u32 && x
                        == #[trigger] unit_pixel(ctx, r, b2);
                assert((e2 >> b2) & 1u32 != 1u32);
            }
        }
        if drawn(ctx, gl, r, e2, x) && x != p {
            if exists|b2: u32|
                b2 < 32 && (row_bits(ctx, gl, r) >> b2) & 1u32 == 1u32 && (e2 >> b2) & 1u32 != 1u32 && x
                    == #[trigger] unit_pixel(ctx, r, b2) {
                let b2 = choose|b2: u32|
                    b2 < 32 && (row_bits(ctx, gl, r) >> b2) & 1u32 == 1u32 && (e2 >> b2) & 1u32 != 1u32 && x
                        == #[trigger] unit_pixel(ctx, r, b2);
                assert(b2 != b);
                assert((e >> b2) & 1u32 != 1u32);
            }
        }
    }
    assert forall|j: int| 0 <= j < s.len() implies #[trigger] t2[j] == if drawn(ctx, gl, r, e2, pixel_start(ctx, j)) {
        color_byte(ctx.color, j - pixel_start(ctx, j))
    } else {
        s[j]
    } by {
        let ps = pixel_start(ctx, j);
        if p <= j < p + 4 {
            assert(ps == p);
            assert(drawn(ctx, gl, r, e2, ps));
        } else {
            assert(ps != p);
            assert(t2[j] == t[j]);
            assert(drawn(ctx, gl, r, e2, ps) == drawn(ctx, gl, r, e, ps));
        }
    }
}


/// Address of the first pixel of glyph row `r` drawn one pixel per bit.
spec fn row_start(ctx: DrawCharCtx, r: int) -> u32 {
    ((ctx.buffer + r * ctx.width_x) % 0x1_0000_0000) as u32
}

/// Drawing the bits `e` of row `r` one pixel per bit without smoothing sets
/// their pixels.
#[verifier::spinoff_prover]
proof fn lemma_row_painted(t: Seq<u8>, s: Seq<u8>, ctx: DrawCharCtx, gl: Seq<u8>, src: spec_fn(u32) -> u32,
    r: int, e: u32)
    requires
        0 <= r,
        smooth_mode(ctx) == 0,
        ctx.width_x % 4 == 0,
        painted(t, s, ctx, gl, r, e),
        forall|j: u32| j < 32 && #[trigger] ((e >> j) & 1u32) == 1u32 ==> (row_bits(ctx, gl, r) >> j) & 1u32 == 1u32,
        row_paint(Some(t), ctx, gl, ctx.glyph + r, row_start(ctx, r), e, 1, src) is Some,
    ensures
        painted(row_paint(Some(t), ctx, gl, ctx.glyph + r, row_start(ctx, r), e, 1, src).unwrap(), s, ctx, gl, r,
            0),
    decreases e,
{
    if e != 0 {
        let b = e.trailing_zeros();
        lemma_lowest_bit(e);
        let rb = row_start(ctx, r);
        let g = ctx.glyph + r;
        let e2 = e & !(1u32 << b);
        let p = unit_pixel(ctx, r, b);
        lemma_unit_cell(ctx, r, b);
        lemma_bit_paint_unsmoothed(Some(t), ctx, gl, g, rb, b, src);
        assert(row_paint(Some(t), ctx, gl, g, rb, e, 1, src) == row_paint(store(Some(t), p as u32, ctx.color), ctx,
            gl, g, rb, e2, 1, src));
        if store(Some(t), p as u32, ctx.color) is None {
            lemma_row_none(ctx, gl, g, rb, e2, 1, src);
        }
        lemma_paint_step(t, s, ctx, gl, r, e, b);
        assert forall|j: u32| j < 32 && #[trigger] ((e2 >> j) & 1u32) == 1u32 implies (row_bits(ctx, gl, r) >> j)
            & 1u32 == 1u32 by {
            assert((e >> j) & 1u32 == 1u32);
        }
        lemma_row_painted(put_u32(t, p, ctx.color), s, ctx, gl, src, r, e2);
    }
}

/// Without smoothing, a bit drawn one pixel per bit is a single store.
proof fn lemma_bit_paint_unsmoothed(c: Option<Seq<u8>>, ctx: DrawCharCtx, gl: Seq<u8>, g: int, rb: u32, b: u32,
    src: spec_fn(u32) -> u32)
    requires
        smooth_mode(ctx) == 0,
    ensures
        bit_paint(c, ctx, gl, g, rb, b, 1, src) == store(c, cell(rb, b, 1), ctx.color),
{
    reveal(bit_paint);
}

/// The pixel of bit `b` in row `r` is where the renderer puts it.
proof fn lemma_unit_cell(ctx: DrawCharCtx, r: int, b: u32)
    requires
        0 <= r,
        b < 32,
    ensures
        cell(row_start(ctx, r), b, 1) as int == unit_pixel(ctx, r, b),
        0 <= unit_pixel(ctx, r, b) < 0x1_0000_0000,
{
    let rb = row_start(ctx, r);
    let x: int = ctx.buffer + r * ctx.width_x;
    assert(0 <= ctx.buffer + r * ctx.width_x) by (nonlinear_arith)
        requires 0 <= r;
    assert(b.wrapping_mul(1) == b);
    assert(b.wrapping_mul(4) == 4 * b);
    lemma_wrapping_add(rb, (4 * b) as u32);
    vstd::arithmetic::div_mod::lemma_add_mod_noop_right(4 * b, x, 0x1_0000_0000);
}

/// A finished row `r` is the same progress as row `r + 1` not yet started.
#[verifier::spinoff_prover]
proof fn lemma_painted_next_row(t: Seq<u8>, s: Seq<u8>, ctx: DrawCharCtx, gl: Seq<u8>, r: int)
    requires
        0 <= r,
        painted(t, s, ctx, gl, r, 0),
    ensures
        painted(t, s, ctx, gl, r + 1, row_bits(ctx, gl, r + 1)),
{
    reveal(painted);
    reveal(drawn);
        assert(forall|b: u32| (0u32 >> b) & 1u32 == 0u32) by (bit_vector);
        assert forall|x: int| #[trigger] drawn(ctx, gl, r, 0, x) == drawn(ctx, gl, r + 1, row_bits(ctx, gl, r + 1), x)
            by {
            if drawn(ctx, gl, r, 0, x) {
                if exists|r2: int, b: u32|
                    0 <= r2 < r && b < 32 && (row_bits(ctx, gl, r2) >> b) & 1u32 == 1u32 && x == #[trigger] unit_pixel(
                        ctx,
                        r2,
                        b,
                    ) {
                    let (r2, b) = choose|r2: int, b: u32|
                        0 <= r2 < r && b < 32 && (row_bits(ctx, gl, r2) >> b) & 1u32 == 1u32 && x
                            == #[trigger] unit_pixel(ctx, r2, b);
                    assert(x == unit_pixel(ctx, r2, b));
                } else {
                    let b = choose|b: u32|
                        b < 32 && (row_bits(ctx, gl, r) >> b) & 1u32 == 1u32 && (0u32 >> b) & 1u32 != 1u32 && x
                            == #[trigger] unit_pixel(ctx, r, b);
                    assert(x == unit_pixel(ctx, r, b));
                }
            }
            if drawn(ctx, gl, r + 1, row_bits(ctx, gl, r + 1), x) {
                let (r2, b) = choose|r2: int, b: u32|
                    0 <= r2 < r + 1 && b < 32 && (row_bits(ctx, gl, r2) >> b) & 1u32 == 1u32 && x
                        == #[trigger] unit_pixel(ctx, r2, b);
                assert(x == unit_pixel(ctx, r2, b));
                assert((0u32 >> b) & 1u32 == 0u32);
            }
        }
}

/// Drawing rows `r..rows` one pixel per bit without smoothing sets their
/// pixels too.
#[verifier::spinoff_prover]
proof fn lemma_rows_painted(t: Seq<u8>, s: Seq<u8>, ctx: DrawCharCtx, gl: Seq<u8>, src: spec_fn(u32) -> u32, r: int)
    requires
        0 <= r <= ctx.rows,
        smooth_mode(ctx) == 0,
        ctx.width_x % 4 == 0,
        painted(t, s, ctx, gl, r, row_bits(ctx, gl, r)),
        rows_paint(Some(t), ctx, gl, r, row_start(ctx, r), 1, src) is Some,
    ensures
        painted(rows_paint(Some(t), ctx, gl, r, row_start(ctx, r), 1, src).unwrap(), s, ctx, gl, ctx.rows as int,
            row_bits(ctx, gl, ctx.rows as int)),
    decreases ctx.rows - r,
{
    if r < ctx.rows {
        let rb = row_start(ctx, r);
        let next = rb.wrapping_add(ctx.width_x.wrapping_mul(1));
        let c1 = row_paint(Some(t), ctx, gl, ctx.glyph + r, rb, row_bits(ctx, gl, r), 1, src);
        if c1 is None {
            lemma_rows_none(ctx, gl, r + 1, next, 1, src);
        }
        lemma_row_painted(t, s, ctx, gl, src, r, row_bits(ctx, gl, r));
        let t1 = c1.unwrap();
        lemma_painted_next_row(t1, s, ctx, gl, r);
        lemma_wrapping_add(rb, ctx.width_x);
        vstd::arithmetic::div_mod::lemma_add_mod_noop_right(ctx.width_x as int, ctx.buffer + r * ctx.width_x,
            0x1_0000_0000);
        assert(ctx.buffer + r * ctx.width_x + ctx.width_x == ctx.buffer + (r + 1) * ctx.width_x) by (nonlinear_arith);
        assert(next == row_start(ctx, r + 1));
        lemma_rows_painted(t1, s, ctx, gl, src, r + 1);
    }
}

/// Drawn one pixel per bit without smoothing, with a row pitch of whole
/// pixels, the glyph sets exactly the pixels of its set bits to the font
/// colour and leaves every other byte of the screen as it was.
#[verifier::spinoff_prover]
pub proof fn law_unsmoothed_draws_exactly_the_glyph(s: Seq<u8>, ctx: DrawCharCtx, gl: Seq<u8>,
    src: spec_fn(u32) -> u32)
    requires
        smooth_mode(ctx) == 0,
        ctx.width_x % 4 == 0,
        draw_spec(s, ctx, gl, src, 1) is Some,
    ensures
        draw_spec(s, ctx, gl, src, 1).unwrap().len() == s.len(),
        forall|j: int|
            0 <= j < s.len() ==> #[trigger] draw_spec(s, ctx, gl, src, 1).unwrap()[j] == if glyph_pixel(
                ctx,
                gl,
                pixel_start(ctx, j),
            ) {
                color_byte(ctx.color, j - pixel_start(ctx, j))
            } else {
                s[j]
            },
{
    reveal(painted);
    reveal(drawn);
    assert(ctx.buffer + 0 * ctx.width_x == ctx.buffer) by (nonlinear_arith);
    vstd::arithmetic::div_mod::lemma_small_mod(ctx.buffer as nat, 0x1_0000_0000);
    assert(row_start(ctx, 0) == ctx.buffer);
    assert forall|x: int| !#[trigger] drawn(ctx, gl, 0, row_bits(ctx, gl, 0), x) by {}
    assert(painted(s, s, ctx, gl, 0, row_bits(ctx, gl, 0)));
    lemma_rows_painted(s, s, ctx, gl, src, 0);
    assert forall|x: int| #[trigger] drawn(ctx, gl, ctx.rows as int, row_bits(ctx, gl, ctx.rows as int), x)
        == glyph_pixel(ctx, gl, x) by {
        if glyph_pixel(ctx, gl, x) {
            let (r2, b) = choose|r2: int, b: u32|
                0 <= r2 < ctx.rows && b < 32 && (row_bits(ctx, gl, r2) >> b) & 1u32 == 1u32 && x
                    == #[trigger] unit_pixel(ctx, r2, b);
            assert(x == unit_pixel(ctx, r2, b));
        }
    }
}


/// Rows `r..rows` with no set bits draw nothing.
proof fn lemma_rows_blank(c: Option<Seq<u8>>, ctx: DrawCharCtx, gl: Seq<u8>, r: int, row_base: u32, esi: u32,
    src: spec_fn(u32) -> u32)
    requires
        forall|r2: int| 0 <= r2 < ctx.rows ==> #[trigger] row_bits(ctx, gl, r2) == 0,
    ensures
        rows_paint(c, ctx, gl, r, row_base, esi, src) == c,
    decreases ctx.rows - r,
{
    if !(r >= ctx.rows || r < 0) {
        assert(row_bits(ctx, gl, r) == 0);
        lemma_rows_blank(c, ctx, gl, r + 1, row_base.wrapping_add(ctx.width_x.wrapping_mul(esi)), esi, src);
    }
}

/// A glyph without set bits draws nothing, at any scale and with any
/// smoothing: the screen is left as it was.
pub proof fn law_blank_glyph_draws_nothing(s: Seq<u8>, ctx: DrawCharCtx, gl: Seq<u8>, src: spec_fn(u32) -> u32,
    esi: u32)
    requires
        forall|r: int| 0 <= r < ctx.rows ==> #[trigger] row_bits(ctx, gl, r) == 0,
    ensures
        draw_spec(s, ctx, gl, src, esi) == Some(s),
{
    lemma_rows_blank(Some(s), ctx, gl, 0, ctx.buffer, esi, src);
}


/// Whether address `x` lies a whole number of pixels from `base`.
pub open spec fn aligned(x: int, base: int) -> bool {
    (x - base) % 4 == 0
}

/// Whether the pixel at `q` lies in `t` and holds `color`.
pub open spec fn colored(t: Seq<u8>, q: int, color: u32) -> bool {
    0 <= q && q + 4 <= t.len() && le_u32(t, q) == color
}

/// Storing the colour at an aligned pixel colours it and keeps every other
/// aligned coloured pixel.
proof fn lemma_store_keeps(t: Seq<u8>, p: int, q: int, color: u32, base: int)
    requires
        0 <= p,
        p + 4 <= t.len(),
        aligned(p, base),
        aligned(q, base),
        colored(t, q, color),
    ensures
        colored(put_u32(t, p, color), q, color),
        colored(put_u32(t, p, color), p, color),
{
    crate::le::lemma_le_u32_put(t, p, color);
    if p != q {
        assert(q + 4 <= p || p + 4 <= q);
        crate::le::lemma_le_u32_put_other(t, p, color, q);
    }
}

/// Wrapping steps by whole pixels keep an address aligned.
proof fn lemma_aligned_step(x: u32, y: u32, base: int)
    requires
        aligned(x as int, base),
        y % 4 == 0,
    ensures
        aligned(x.wrapping_add(y) as int, base),
        aligned(x.wrapping_sub(y) as int, base),
{
}

/// A wrapping product with a multiple of four is a multiple of four.
proof fn lemma_mul4(a: u32, b: u32)
    requires
        a % 4 == 0,
    ensures
        a.wrapping_mul(b) % 4 == 0,
        b.wrapping_mul(a) % 4 == 0,
{
    let q: int = (a / 4) as int;
    assert(a * b == (q * b) * 4) by (nonlinear_arith)
        requires a == 4 * q;
    assert(b * a == (q * b) * 4) by (nonlinear_arith)
        requires a == 4 * q;
    vstd::arithmetic::div_mod::lemma_mod_multiples_basic(q * b, 4);
    vstd::arithmetic::div_mod::lemma_mod_mod(a * b, 4, 0x4000_0000);
    vstd::arithmetic::div_mod::lemma_mod_mod(b * a, 4, 0x4000_0000);
}

/// A fill colours its run and keeps the aligned pixels already coloured.
#[verifier::spinoff_prover]
proof fn lemma_fill_keeps(t: Seq<u8>, edi: u32, n: u32, color: u32, base: int, q: int)
    requires
        fill_down(Some(t), edi, n, color) is Some,
        aligned(edi as int, base),
        aligned(q, base),
        colored(t, q, color),
    ensures
        colored(fill_down(Some(t), edi, n, color).unwrap(), q, color),
        fill_down(Some(t), edi, n, color).unwrap().len() == t.len(),
    decreases n,
{
    if n < 0x8000_0000 {
        let a = edi.wrapping_add(n.wrapping_mul(4));
        lemma_mul4(4, n);
        lemma_aligned_step(edi, n.wrapping_mul(4), base);
        if store(Some(t), a, color) is None {
            if n > 0 {
                lemma_fill_down_none(edi, (n - 1) as u32, color);
            }
        }
        lemma_store_keeps(t, a as int, q, color, base);
        if n > 0 {
            lemma_fill_keeps(put_u32(t, a as int, color), edi, (n - 1) as u32, color, base, q);
        }
    }
}

/// A fill colours every pixel of its run.
#[verifier::spinoff_prover]
proof fn lemma_fill_paints(t: Seq<u8>, edi: u32, n: u32, color: u32, base: int, k: u32)
    requires
        fill_down(Some(t), edi, n, color) is Some,
        aligned(edi as int, base),
        n < 0x8000_0000,
        k <= n,
    ensures
        colored(fill_down(Some(t), edi, n, color).unwrap(), edi.wrapping_add(k.wrapping_mul(4)) as int, color),
    decreases n,
{
    let a = edi.wrapping_add(n.wrapping_mul(4));
    lemma_mul4(4, n);
    lemma_aligned_step(edi, n.wrapping_mul(4), base);
    if store(Some(t), a, color) is None {
        if n > 0 {
            lemma_fill_down_none(edi, (n - 1) as u32, color);
        }
    }
    let t1 = put_u32(t, a as int, color);
    crate::le::lemma_le_u32_put(t, a as int, color);
    if n > 0 {
        if k == n {
            lemma_mul4(4, k);
            lemma_aligned_step(edi, k.wrapping_mul(4), base);
            lemma_fill_keeps(t1, edi, (n - 1) as u32, color, base, a as int);
        } else {
            lemma_fill_paints(t1, edi, (n - 1) as u32, color, base, k);
        }
    }
}

/// A staircase keeps the aligned pixels already coloured.
#[verifier::spinoff_prover]
proof fn lemma_stairs_keeps(t: Seq<u8>, edi: u32, n: u32, w: u32, down: bool, col: u32, double: bool,
    color: u32, base: int, q: int)
    requires
        stairs(Some(t), edi, n, w, down, col, double, color) is Some,
        aligned(edi as int, base),
        w % 4 == 0,
        col % 4 == 0,
        aligned(q, base),
        colored(t, q, color),
    ensures
        colored(stairs(Some(t), edi, n, w, down, col, double, color).unwrap(), q, color),
    decreases n,
{
    let c1 = fill_down(Some(t), edi, n, color);
    let e1 = row_step(edi, w, down);
    lemma_aligned_step(edi, w, base);
    lemma_aligned_step(e1, w, base);
    let e2 = if double { row_step(e1, w, down) } else { e1 };
    lemma_aligned_step(e2, col, base);
    if c1 is None {
        lemma_fill_down_none(e1, n, color);
        if !(n >= 0x8000_0000 || n == 0) {
            lemma_stairs_none(e2.wrapping_add(col), (n - 1) as u32, w, down, col, double, color);
        }
    }
    lemma_fill_keeps(t, edi, n, color, base, q);
    let t1 = c1.unwrap();
    let c2 = if double { fill_down(c1, e1, n, color) } else { c1 };
    if double {
        if c2 is None {
            if !(n >= 0x8000_0000 || n == 0) {
                lemma_stairs_none(e2.wrapping_add(col), (n - 1) as u32, w, down, col, double, color);
            }
        }
        lemma_fill_keeps(t1, e1, n, color, base, q);
    }
    if !(n >= 0x8000_0000 || n == 0) {
        lemma_stairs_keeps(c2.unwrap(), e2.wrapping_add(col), (n - 1) as u32, w, down, col, double, color, base, q);
    }
}


/// The address `i` pixel rows below `edi`.
pub open spec fn rows_below(edi: u32, w: u32, i: int) -> u32 {
    ((edi + i * w) % 0x1_0000_0000) as u32
}

/// A block keeps the aligned pixels already coloured.
proof fn lemma_block_keeps(t: Seq<u8>, edi: u32, rows: u32, n: u32, w: u32, color: u32, base: int, q: int)
    requires
        block(Some(t), edi, rows, n, w, color) is Some,
        aligned(edi as int, base),
        w % 4 == 0,
        aligned(q, base),
        colored(t, q, color),
    ensures
        colored(block(Some(t), edi, rows, n, w, color).unwrap(), q, color),
    decreases rows,
{
    if rows > 0 {
        if fill_down(Some(t), edi, n, color) is None {
            lemma_block_none(edi.wrapping_add(w), (rows - 1) as u32, n, w, color);
        }
        lemma_fill_keeps(t, edi, n, color, base, q);
        lemma_aligned_step(edi, w, base);
        lemma_block_keeps(fill_down(Some(t), edi, n, color).unwrap(), edi.wrapping_add(w), (rows - 1) as u32, n, w,
            color, base, q);
    }
}

/// A block colours each of its `rows` runs of `n + 1` pixels.
#[verifier::spinoff_prover]
proof fn lemma_block_paints(t: Seq<u8>, edi: u32, rows: u32, n: u32, w: u32, color: u32, base: int, i: int, k: u32)
    requires
        block(Some(t), edi, rows, n, w, color) is Some,
        aligned(edi as int, base),
        w % 4 == 0,
        n < 0x8000_0000,
        0 <= i < rows,
        k <= n,
    ensures
        colored(block(Some(t), edi, rows, n, w, color).unwrap(), rows_below(edi, w, i).wrapping_add(k.wrapping_mul(4))
            as int, color),
    decreases rows,
{
    if fill_down(Some(t), edi, n, color) is None {
        lemma_block_none(edi.wrapping_add(w), (rows - 1) as u32, n, w, color);
    }
    let t1 = fill_down(Some(t), edi, n, color).unwrap();
    lemma_aligned_step(edi, w, base);
    if i == 0 {
        assert(rows_below(edi, w, 0) == edi);
        lemma_fill_paints(t, edi, n, color, base, k);
        lemma_mul4(4, k);
        lemma_aligned_step(edi, k.wrapping_mul(4), base);
        lemma_block_keeps(t1, edi.wrapping_add(w), (rows - 1) as u32, n, w, color, base,
            edi.wrapping_add(k.wrapping_mul(4)) as int);
    } else {
        lemma_block_paints(t1, edi.wrapping_add(w), (rows - 1) as u32, n, w, color, base, i - 1, k);
        lemma_wrapping_add(edi, w);
        vstd::arithmetic::div_mod::lemma_add_mod_noop_right((i - 1) * w, edi + w, 0x1_0000_0000);
        assert(edi + w + (i - 1) * w == edi + i * w) by (nonlinear_arith);
        vstd::arithmetic::div_mod::lemma_add_mod_noop((edi + w) as int, (i - 1) * w, 0x1_0000_0000);
        assert(rows_below(edi.wrapping_add(w), w, i - 1) == rows_below(edi, w, i));
    }
}

/// A corner keeps the aligned pixels already coloured.
proof fn lemma_corner_keeps(t: Seq<u8>, e: Edge, start: u32, m: u32, w: u32, down: bool, col: u32, color: u32,
    base: int, q: int)
    requires
        corner(Some(t), e, start, m, w, down, col, color) is Some,
        aligned(start as int, base),
        w % 4 == 0,
        col % 4 == 0,
        aligned(q, base),
        colored(t, q, color),
    ensures
        colored(corner(Some(t), e, start, m, w, down, col, color).unwrap(), q, color),
{
    match e {
        Edge::Skip => {},
        Edge::Low => lemma_stairs_keeps(t, start, m.wrapping_sub(2), w, down, col, false, color, base, q),
        Edge::High => lemma_stairs_keeps(t, start, m.wrapping_sub(2), w, down, col, true, color, base, q),
    }
}

/// Cell and corner starts are whole pixels from the row base.
proof fn lemma_cell_aligned(row_base: u32, col: u32, m: u32, w: u32, base: int)
    requires
        aligned(row_base as int, base),
        w % 4 == 0,
    ensures
        aligned(cell(row_base, col, m) as int, base),
        aligned(cell_bottom(cell(row_base, col, m), m, w) as int, base),
        aligned(cell(row_base, col, m).wrapping_add(4) as int, base),
        aligned(cell_bottom(cell(row_base, col, m), m, w).wrapping_add(4) as int, base),
{
    lemma_mul4(4, col.wrapping_mul(m));
    lemma_aligned_step(row_base, col.wrapping_mul(m).wrapping_mul(4), base);
    let c = cell(row_base, col, m);
    lemma_mul4(w, m.wrapping_sub(1));
    lemma_aligned_step(c, w.wrapping_mul(m.wrapping_sub(1)), base);
    lemma_aligned_step(c, 4, base);
    lemma_aligned_step(cell_bottom(c, m, w), 4, base);
}

/// The corners left of a bit keep the aligned pixels already coloured.
#[verifier::spinoff_prover]
proof fn lemma_left_keeps(t: Seq<u8>, gl: Seq<u8>, g: int, row_base: u32, b: u32, m: u32, w: u32, color: u32,
    base: int, q: int)
    requires
        aligned(row_base as int, base),
        w % 4 == 0,
        aligned(q, base),
        colored(t, q, color),
        left_side(Some(t), gl, g, row_base, b, m, w, color) is Some,
    ensures
        colored(left_side(Some(t), gl, g, row_base, b, m, w, color).unwrap(), q, color),
{
    if !(b == 0 || bt(gl, g, 0, (b - 1) as u32)) {
        let left = cell(row_base, (b - 1) as u32, m);
        lemma_cell_aligned(row_base, (b - 1) as u32, m, w, base);
        let d = left_down(gl, g, b);
        let u = left_up(gl, g, b);
        let c1 = corner(Some(t), d, cell_bottom(left, m, w).wrapping_add(4), m, w, false, 4, color);
        assert(left_side(Some(t), gl, g, row_base, b, m, w, color) == corner(c1, u, left.wrapping_add(4), m, w, true,
            4, color));
        if c1 is None {
            lemma_corner_none(u, left.wrapping_add(4), m, w, true, 4, color);
        }
        lemma_corner_keeps(t, d, cell_bottom(left, m, w).wrapping_add(4), m, w, false, 4, color, base, q);
        lemma_corner_keeps(c1.unwrap(), u, left.wrapping_add(4), m, w, true, 4, color, base, q);
    }
}

/// The corners right of a bit keep the aligned pixels already coloured.
#[verifier::spinoff_prover]
proof fn lemma_right_keeps(t: Seq<u8>, gl: Seq<u8>, g: int, row_base: u32, b: u32, m: u32, w: u32, color: u32,
    base: int, q: int)
    requires
        aligned(row_base as int, base),
        w % 4 == 0,
        aligned(q, base),
        colored(t, q, color),
        right_side(Some(t), gl, g, row_base, b, m, w, color) is Some,
    ensures
        colored(right_side(Some(t), gl, g, row_base, b, m, w, color).unwrap(), q, color),
{
    if !bt(gl, g, 0, (b + 1) as u32) {
        let right = cell(row_base, (b + 1) as u32, m);
        lemma_cell_aligned(row_base, (b + 1) as u32, m, w, base);
        let d = right_down(gl, g, b);
        if d == Edge::Skip {
            lemma_corner_keeps(t, right_up(gl, g, b), right, m, w, true, 0, color, base, q);
        } else {
            lemma_corner_keeps(t, d, cell_bottom(right, m, w), m, w, false, 0, color, base, q);
        }
    }
}

/// The corners of a bit keep the aligned pixels already coloured.
proof fn lemma_sides_keep(t: Seq<u8>, gl: Seq<u8>, g: int, row_base: u32, b: u32, m: u32, w: u32, color: u32,
    base: int, q: int)
    requires
        aligned(row_base as int, base),
        w % 4 == 0,
        aligned(q, base),
        colored(t, q, color),
    ensures
        left_side(Some(t), gl, g, row_base, b, m, w, color) is Some ==> colored(
            left_side(Some(t), gl, g, row_base, b, m, w, color).unwrap(),
            q,
            color,
        ),
        right_side(Some(t), gl, g, row_base, b, m, w, color) is Some ==> colored(
            right_side(Some(t), gl, g, row_base, b, m, w, color).unwrap(),
            q,
            color,
        ),
{
    if left_side(Some(t), gl, g, row_base, b, m, w, color) is Some {
        lemma_left_keeps(t, gl, g, row_base, b, m, w, color, base, q);
    }
    if right_side(Some(t), gl, g, row_base, b, m, w, color) is Some {
        lemma_right_keeps(t, gl, g, row_base, b, m, w, color, base, q);
    }
}

/// A scaled bit keeps the aligned pixels already coloured.
#[verifier::spinoff_prover]
proof fn lemma_scaled_bit_keeps(t: Seq<u8>, gl: Seq<u8>, g: int, row_base: u32, b: u32, m: u32, w: u32, color: u32,
    base: int, q: int)
    requires
        scaled_bit(Some(t), gl, g, row_base, b, m, w, color) is Some,
        aligned(row_base as int, base),
        w % 4 == 0,
        aligned(q, base),
        colored(t, q, color),
    ensures
        colored(scaled_bit(Some(t), gl, g, row_base, b, m, w, color).unwrap(), q, color),
{
    lemma_cell_aligned(row_base, b, m, w, base);
    let c1 = block(Some(t), cell(row_base, b, m), m, m.wrapping_sub(1), w, color);
    lemma_sides_none(gl, g, row_base, b, m, w, color);
    if c1 is None {
        assert(left_side(None, gl, g, row_base, b, m, w, color) is None);
    }
    lemma_block_keeps(t, cell(row_base, b, m), m, m.wrapping_sub(1), w, color, base, q);
    let t1 = c1.unwrap();
    let c2 = left_side(c1, gl, g, row_base, b, m, w, color);
    if c2 is None {
        assert(right_side(None, gl, g, row_base, b, m, w, color) is None);
    }
    lemma_sides_keep(t1, gl, g, row_base, b, m, w, color, base, q);
    lemma_sides_keep(c2.unwrap(), gl, g, row_base, b, m, w, color, base, q);
}

/// Whole rows below an aligned address are aligned.
proof fn lemma_rows_below_aligned(c: u32, w: u32, i: int, base: int)
    requires
        aligned(c as int, base),
        w % 4 == 0,
        0 <= i,
    ensures
        aligned(rows_below(c, w, i) as int, base),
{
    let x: int = c + i * w;
    let kk: int = (w / 4) as int;
    assert(i * w == (i * kk) * 4) by (nonlinear_arith)
        requires w == 4 * kk;
    vstd::arithmetic::div_mod::lemma_mod_multiples_basic(i * kk, 4);
    assert(0 <= x) by (nonlinear_arith)
        requires 0 <= i, x == c + i * w;
    vstd::arithmetic::div_mod::lemma_mod_mod(x, 4, 0x4000_0000);
}

/// A scaled bit colours its whole `m` x `m` cell.
#[verifier::spinoff_prover]
proof fn lemma_scaled_bit_paints(t: Seq<u8>, gl: Seq<u8>, g: int, row_base: u32, b: u32, m: u32, w: u32,
    color: u32, base: int, i: int, k: u32)
    requires
        scaled_bit(Some(t), gl, g, row_base, b, m, w, color) is Some,
        aligned(row_base as int, base),
        w % 4 == 0,
        1 <= m <= 0x8000_0000,
        0 <= i < m,
        k < m,
    ensures
        colored(scaled_bit(Some(t), gl, g, row_base, b, m, w, color).unwrap(),
            rows_below(cell(row_base, b, m), w, i).wrapping_add(k.wrapping_mul(4)) as int, color),
{
    let c = cell(row_base, b, m);
    lemma_cell_aligned(row_base, b, m, w, base);
    let c1 = block(Some(t), c, m, m.wrapping_sub(1), w, color);
    lemma_sides_none(gl, g, row_base, b, m, w, color);
    if c1 is None {
        assert(left_side(None, gl, g, row_base, b, m, w, color) is None);
    }
    lemma_block_paints(t, c, m, (m - 1) as u32, w, color, base, i, k);
    let q = rows_below(c, w, i).wrapping_add(k.wrapping_mul(4));
    lemma_rows_below_aligned(c, w, i, base);
    lemma_mul4(4, k);
    lemma_aligned_step(rows_below(c, w, i), k.wrapping_mul(4), base);
    let t1 = c1.unwrap();
    let c2 = left_side(c1, gl, g, row_base, b, m, w, color);
    if c2 is None {
        assert(right_side(None, gl, g, row_base, b, m, w, color) is None);
    }
    lemma_sides_keep(t1, gl, g, row_base, b, m, w, color, base, q as int);
    lemma_sides_keep(c2.unwrap(), gl, g, row_base, b, m, w, color, base, q as int);
}


/// At a scale other than one, a bit is drawn as a scaled cell.
proof fn lemma_bit_paint_scaled(c: Option<Seq<u8>>, ctx: DrawCharCtx, gl: Seq<u8>, g: int, rb: u32, b: u32, m: u32,
    src: spec_fn(u32) -> u32)
    requires
        m != 1,
    ensures
        bit_paint(c, ctx, gl, g, rb, b, m, src) == scaled_bit(c, gl, g, rb, b, m, ctx.width_x, ctx.color),
{
    reveal(bit_paint);
}

/// A scaled row keeps the aligned pixels already coloured.
#[verifier::spinoff_prover]
proof fn lemma_row_keeps_scaled(t: Seq<u8>, ctx: DrawCharCtx, gl: Seq<u8>, src: spec_fn(u32) -> u32, g: int,
    rb: u32, e: u32, m: u32, q: int)
    requires
        m != 1,
        ctx.width_x % 4 == 0,
        aligned(rb as int, ctx.buffer as int),
        aligned(q, ctx.buffer as int),
        colored(t, q, ctx.color),
        row_paint(Some(t), ctx, gl, g, rb, e, m, src) is Some,
    ensures
        colored(row_paint(Some(t), ctx, gl, g, rb, e, m, src).unwrap(), q, ctx.color),
    decreases e,
{
    if e != 0 {
        let b = e.trailing_zeros();
        lemma_lowest_bit(e);
        let e2 = e & !(1u32 << b);
        lemma_bit_paint_scaled(Some(t), ctx, gl, g, rb, b, m, src);
        let c1 = scaled_bit(Some(t), gl, g, rb, b, m, ctx.width_x, ctx.color);
        if c1 is None {
            lemma_row_none(ctx, gl, g, rb, e2, m, src);
        }
        lemma_scaled_bit_keeps(t, gl, g, rb, b, m, ctx.width_x, ctx.color, ctx.buffer as int, q);
        lemma_row_keeps_scaled(c1.unwrap(), ctx, gl, src, g, rb, e2, m, q);
    }
}

/// A scaled row colours the whole cell of each of its set bits.
#[verifier::spinoff_prover]
proof fn lemma_row_paints_scaled(t: Seq<u8>, ctx: DrawCharCtx, gl: Seq<u8>, src: spec_fn(u32) -> u32, g: int,
    rb: u32, e: u32, m: u32, b: u32, i: int, k: u32)
    requires
        2 <= m <= 0x8000_0000,
        ctx.width_x % 4 == 0,
        aligned(rb as int, ctx.buffer as int),
        row_paint(Some(t), ctx, gl, g, rb, e, m, src) is Some,
        b < 32,
        (e >> b) & 1u32 == 1u32,
        0 <= i < m,
        k < m,
    ensures
        colored(row_paint(Some(t), ctx, gl, g, rb, e, m, src).unwrap(),
            rows_below(cell(rb, b, m), ctx.width_x, i).wrapping_add(k.wrapping_mul(4)) as int, ctx.color),
    decreases e,
{
    let b0 = e.trailing_zeros();
    lemma_lowest_bit(e);
    let e2 = e & !(1u32 << b0);
    lemma_bit_paint_scaled(Some(t), ctx, gl, g, rb, b0, m, src);
    let c1 = scaled_bit(Some(t), gl, g, rb, b0, m, ctx.width_x, ctx.color);
    if c1 is None {
        lemma_row_none(ctx, gl, g, rb, e2, m, src);
    }
    if b == b0 {
        lemma_scaled_bit_paints(t, gl, g, rb, b, m, ctx.width_x, ctx.color, ctx.buffer as int, i, k);
        let q = rows_below(cell(rb, b, m), ctx.width_x, i).wrapping_add(k.wrapping_mul(4));
        lemma_cell_aligned(rb, b, m, ctx.width_x, ctx.buffer as int);
        lemma_rows_below_aligned(cell(rb, b, m), ctx.width_x, i, ctx.buffer as int);
        lemma_mul4(4, k);
        lemma_aligned_step(rows_below(cell(rb, b, m), ctx.width_x, i), k.wrapping_mul(4), ctx.buffer as int);
        lemma_row_keeps_scaled(c1.unwrap(), ctx, gl, src, g, rb, e2, m, q as int);
    } else {
        assert((e2 >> b) & 1u32 == 1u32);
        lemma_row_paints_scaled(c1.unwrap(), ctx, gl, src, g, rb, e2, m, b, i, k);
    }
}

/// The row base `n` rows of cells after `rb`.
spec fn base_after(rb: u32, wm: u32, n: int) -> u32 {
    ((rb + n * wm) % 0x1_0000_0000) as u32
}

/// One more row of cells advances the row base by the cell-row pitch.
proof fn lemma_base_after_step(rb: u32, wm: u32, n: int)
    requires
        0 <= n,
    ensures
        base_after(rb.wrapping_add(wm), wm, n) == base_after(rb, wm, n + 1),
{
    lemma_wrapping_add(rb, wm);
    assert(rb + wm + n * wm == rb + (n + 1) * wm) by (nonlinear_arith);
    assert(0 <= n * wm) by (nonlinear_arith)
        requires 0 <= n;
    vstd::arithmetic::div_mod::lemma_add_mod_noop((rb + wm) as int, n * wm, 0x1_0000_0000);
    vstd::arithmetic::div_mod::lemma_mod_twice(n * wm, 0x1_0000_0000);
    vstd::arithmetic::div_mod::lemma_add_mod_noop((rb + wm) as int, n * wm, 0x1_0000_0000);
}

/// Scaled rows keep the aligned pixels already coloured.
#[verifier::spinoff_prover]
proof fn lemma_rows_keep_scaled(t: Seq<u8>, ctx: DrawCharCtx, gl: Seq<u8>, src: spec_fn(u32) -> u32, r: int,
    rb: u32, m: u32, q: int)
    requires
        m != 1,
        ctx.width_x % 4 == 0,
        aligned(rb as int, ctx.buffer as int),
        aligned(q, ctx.buffer as int),
        colored(t, q, ctx.color),
        rows_paint(Some(t), ctx, gl, r, rb, m, src) is Some,
    ensures
        colored(rows_paint(Some(t), ctx, gl, r, rb, m, src).unwrap(), q, ctx.color),
    decreases ctx.rows - r,
{
    if !(r >= ctx.rows || r < 0) {
        let next = rb.wrapping_add(ctx.width_x.wrapping_mul(m));
        let c1 = row_paint(Some(t), ctx, gl, ctx.glyph + r, rb, row_bits(ctx, gl, r), m, src);
        if c1 is None {
            lemma_rows_none(ctx, gl, r + 1, next, m, src);
        }
        lemma_row_keeps_scaled(t, ctx, gl, src, ctx.glyph + r, rb, row_bits(ctx, gl, r), m, q);
        lemma_mul4(ctx.width_x, m);
        lemma_aligned_step(rb, ctx.width_x.wrapping_mul(m), ctx.buffer as int);
        lemma_rows_keep_scaled(c1.unwrap(), ctx, gl, src, r + 1, next, m, q);
    }
}

/// Scaled rows colour the whole cell of every set bit of every row.
#[verifier::spinoff_prover]
proof fn lemma_rows_paint_scaled(t: Seq<u8>, ctx: DrawCharCtx, gl: Seq<u8>, src: spec_fn(u32) -> u32, r: int,
    rb: u32, m: u32, r2: int, b: u32, i: int, k: u32)
    requires
        2 <= m <= 0x8000_0000,
        ctx.width_x % 4 == 0,
        aligned(rb as int, ctx.buffer as int),
        rows_paint(Some(t), ctx, gl, r, rb, m, src) is Some,
        0 <= r <= r2 < ctx.rows,
        b < 32,
        (row_bits(ctx, gl, r2) >> b) & 1u32 == 1u32,
        0 <= i < m,
        k < m,
    ensures
        colored(rows_paint(Some(t), ctx, gl, r, rb, m, src).unwrap(),
            rows_below(cell(base_after(rb, ctx.width_x.wrapping_mul(m), r2 - r), b, m), ctx.width_x, i).wrapping_add(
                k.wrapping_mul(4)) as int, ctx.color),
    decreases ctx.rows - r,
{
    let wm = ctx.width_x.wrapping_mul(m);
    let next = rb.wrapping_add(wm);
    let c1 = row_paint(Some(t), ctx, gl, ctx.glyph + r, rb, row_bits(ctx, gl, r), m, src);
    if c1 is None {
        lemma_rows_none(ctx, gl, r + 1, next, m, src);
    }
    lemma_mul4(ctx.width_x, m);
    lemma_aligned_step(rb, wm, ctx.buffer as int);
    if r2 == r {
        assert(rb + 0 * wm == rb) by (nonlinear_arith);
        vstd::arithmetic::div_mod::lemma_small_mod(rb as nat, 0x1_0000_0000);
        assert(base_after(rb, wm, 0) == rb);
        lemma_row_paints_scaled(t, ctx, gl, src, ctx.glyph + r, rb, row_bits(ctx, gl, r), m, b, i, k);
        let q = rows_below(cell(rb, b, m), ctx.width_x, i).wrapping_add(k.wrapping_mul(4));
        lemma_cell_aligned(rb, b, m, ctx.width_x, ctx.buffer as int);
        lemma_rows_below_aligned(cell(rb, b, m), ctx.width_x, i, ctx.buffer as int);
        lemma_mul4(4, k);
        lemma_aligned_step(rows_below(cell(rb, b, m), ctx.width_x, i), k.wrapping_mul(4), ctx.buffer as int);
        lemma_rows_keep_scaled(c1.unwrap(), ctx, gl, src, r + 1, next, m, q as int);
    } else {
        lemma_rows_paint_scaled(c1.unwrap(), ctx, gl, src, r + 1, next, m, r2, b, i, k);
        lemma_base_after_step(rb, wm, r2 - r - 1);
    }
}


/// Address of pixel `(i, k)` (row, column) of the cell of bit `b` of glyph
/// row `r` drawn at scale `m`.
pub open spec fn scaled_pixel(ctx: DrawCharCtx, m: u32, r: int, b: u32, i: int, k: int) -> int {
    (ctx.buffer + (r * m + i) * ctx.width_x + 4 * (b * m + k)) % 0x1_0000_0000
}

/// The renderer's wrapping address arithmetic lands on [`scaled_pixel`].
#[verifier::spinoff_prover]
proof fn lemma_scaled_address(ctx: DrawCharCtx, m: u32, r: int, b: u32, i: int, k: u32)
    requires
        0 <= r,
        0 <= i,
    ensures
        rows_below(cell(base_after(ctx.buffer, ctx.width_x.wrapping_mul(m), r), b, m), ctx.width_x, i).wrapping_add(
            k.wrapping_mul(4)) as int == scaled_pixel(ctx, m, r, b, i, k as int),
{
    let n: int = 0x1_0000_0000;
    let w: int = ctx.width_x as int;
    let wm = ctx.width_x.wrapping_mul(m);
    let x1: int = ctx.buffer + r * (w * m);
    let a = base_after(ctx.buffer, wm, r);
    assert(0 <= r * wm && 0 <= r * (w * m)) by (nonlinear_arith)
        requires 0 <= r, 0 <= w, 0 <= m, 0 <= wm;
    vstd::arithmetic::div_mod::lemma_mul_mod_noop_right(r, w * m, n);
    vstd::arithmetic::div_mod::lemma_add_mod_noop_right(ctx.buffer as int, r * wm, n);
    vstd::arithmetic::div_mod::lemma_add_mod_noop_right(ctx.buffer as int, r * (w * m), n);
    assert(a as int == x1 % n);
    let bm = b.wrapping_mul(m);
    let bm4 = bm.wrapping_mul(4);
    vstd::arithmetic::div_mod::lemma_mul_mod_noop_left(b * m, 4, n);
    assert(bm4 as int == (b * m * 4) % n);
    let c = cell(a, b, m);
    lemma_wrapping_add(a, bm4);
    assert(0 <= b * m * 4) by (nonlinear_arith);
    vstd::arithmetic::div_mod::lemma_add_mod_noop(x1, b * m * 4, n);
    let x2: int = x1 + b * m * 4;
    assert(c as int == x2 % n);
    let d = rows_below(c, ctx.width_x, i);
    assert(0 <= i * w) by (nonlinear_arith)
        requires 0 <= i, 0 <= w;
    vstd::arithmetic::div_mod::lemma_add_mod_noop_right(i * w, x2, n);
    let x3: int = x2 + i * w;
    assert(d as int == x3 % n);
    let k4 = k.wrapping_mul(4);
    lemma_wrapping_add(d, k4);
    vstd::arithmetic::div_mod::lemma_add_mod_noop(x3, k * 4, n);
    assert(x3 + k * 4 == ctx.buffer + (r * m + i) * w + 4 * (b * m + k)) by (nonlinear_arith)
        requires x3 == x2 + i * w, x2 == x1 + b * m * 4, x1 == ctx.buffer + r * (w * m);
}

/// Drawn at a scale `m` of at least two (up to 2^31), with a row pitch of
/// whole pixels, every set bit of the glyph ends up an `m` x `m` square of
/// pixels in the font colour.
#[verifier::spinoff_prover]
pub proof fn law_scaled_bits_fill_their_cells(s: Seq<u8>, ctx: DrawCharCtx, gl: Seq<u8>, src: spec_fn(u32) -> u32,
    m: u32)
    requires
        2 <= m <= 0x8000_0000,
        ctx.width_x % 4 == 0,
        draw_spec(s, ctx, gl, src, m) is Some,
    ensures
        forall|r: int, b: u32, i: int, k: int|
            0 <= r < ctx.rows && b < 32 && (row_bits(ctx, gl, r) >> b) & 1u32 == 1u32 && 0 <= i < m && 0 <= k < m
                ==> colored(draw_spec(s, ctx, gl, src, m).unwrap(), #[trigger] scaled_pixel(ctx, m, r, b, i, k),
                ctx.color),
{
    assert forall|r: int, b: u32, i: int, k: int|
        0 <= r < ctx.rows && b < 32 && (row_bits(ctx, gl, r) >> b) & 1u32 == 1u32 && 0 <= i < m && 0 <= k < m
            implies colored(draw_spec(s, ctx, gl, src, m).unwrap(), #[trigger] scaled_pixel(ctx, m, r, b, i, k),
            ctx.color) by {
        lemma_rows_paint_scaled(s, ctx, gl, src, 0, ctx.buffer, m, r, b, i, k as u32);
        lemma_scaled_address(ctx, m, r, b, i, k as u32);
    }
}

} // verus!
