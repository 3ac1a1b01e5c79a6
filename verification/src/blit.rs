//! The 32-bpp bitmap blit (system call 73): clip the source bitmap to the
//! window, then copy each pixel the window owns to the frame buffer in the
//! display's pixel format, letting a software cursor rewrite colours.

use vstd::prelude::*;
use crate::geometry::{blit_clip, spec_blit_clip, BlitterGeom, Rect};
use crate::le::{le_u32, put_u32, read_u32_le, write_u32_le_slice};
use crate::pixel::{fasm_pack_rgb565, spec_rgb565, BLIT_CLIENT_RELATIVE, PARAM_OFF_DST_X, PARAM_OFF_DST_Y,
    PARAM_OFF_H, PARAM_OFF_SRC_H, PARAM_OFF_SRC_W, PARAM_OFF_SRC_X, PARAM_OFF_SRC_Y, PARAM_OFF_STRIDE, PARAM_OFF_W};

verus! {

/// What the blit needs to know of the window and the display.
#[derive(Clone, Copy, Debug, PartialEq, Eq)]
pub struct Blit32Ctx {
    pub win_left: i32,
    pub win_top: i32,
    pub win_width: i32,
    pub win_height: i32,
    pub client_left: i32,
    pub client_top: i32,
    /// The window's slot number (its byte in the window map).
    pub slot_idx: u32,
    /// Bits per pixel of the frame buffer: 32, 24, else 16.
    pub bpp: u32,
    pub display_width: u32,
    pub lfb_pitch: u32,
    /// The cursor in use, and the software cursor: equal when the cursor is
    /// drawn in software and must be kept on top of blitted pixels.
    pub select_cursor: u32,
    pub software_cursor: u32,
}

/// The blit after clipping: the clipped geometry, where it lands on the
/// screen, the bitmap's row stride, the window's slot and the pixel format.
#[derive(Clone, Copy, Debug, PartialEq, Eq)]
pub struct BlitPlan {
    pub g: BlitterGeom,
    pub out_x: i32,
    pub out_y: i32,
    pub stride: i32,
    pub slot: u8,
    pub bpp: u32,
    pub software: bool,
}

/// The signed dword at `off` of the parameter block.
pub open spec fn param(p: Seq<u8>, off: int) -> i32 {
    le_u32(p, off) as i32
}

/// The blitter geometry of a request: the window `[0, width]×[0, height]` as
/// destination clip, the bitmap `[0, src_w)×[0, src_h)` as source clip.
pub open spec fn request_geom(p: Seq<u8>, ctx: Blit32Ctx) -> BlitterGeom {
    BlitterGeom {
        dc: Rect { left: 0, top: 0, right: ctx.win_width.wrapping_add(1), bottom: ctx.win_height.wrapping_add(1) },
        sc: Rect { left: 0, top: 0, right: param(p, 24), bottom: param(p, 28) },
        dst_x: param(p, 0),
        dst_y: param(p, 4),
        src_x: param(p, 16),
        src_y: param(p, 20),
        w: param(p, 8),
        h: param(p, 12),
    }
}

/// The plan of a request, or `None` when clipping leaves nothing to draw:
/// the clipped destination is offset by the window origin, and by the client
/// origin for a client-relative request.
pub open spec fn plan_of(p: Seq<u8>, flags: u32, ctx: Blit32Ctx) -> Option<BlitPlan> {
    let c = spec_blit_clip(request_geom(p, ctx));
    if !c.draw || c.geom.w == 0 || c.geom.h == 0 {
        None
    } else {
        let x0 = c.geom.dst_x.wrapping_add(ctx.win_left);
        let y0 = c.geom.dst_y.wrapping_add(ctx.win_top);
        let rel = flags & BLIT_CLIENT_RELATIVE != 0;
        Some(BlitPlan {
            g: c.geom,
            out_x: if rel { x0.wrapping_add(ctx.client_left) } else { x0 },
            out_y: if rel { y0.wrapping_add(ctx.client_top) } else { y0 },
            stride: param(p, 36),
            slot: ctx.slot_idx as u8,
            bpp: ctx.bpp,
            software: ctx.select_cursor == ctx.software_cursor,
        })
    }
}

/// Bytes per frame-buffer pixel.
pub open spec fn bytes_per_pixel(bpp: u32) -> u32 {
    if bpp == 32 { 4 } else if bpp == 24 { 3 } else { 2 }
}

/// The screen row of bitmap row `row`.
pub open spec fn screen_y(pl: BlitPlan, row: i32) -> i32 {
    pl.out_y.wrapping_add(row)
}

/// The line-table index of row `row`.
pub open spec fn line(pl: BlitPlan, row: i32) -> int {
    screen_y(pl, row) as u32 as int
}

/// The window-map byte of pixel (row, col).
pub open spec fn map_index(pl: BlitPlan, dw: Seq<u32>, row: i32, col: int) -> int {
    (dw[line(pl, row)] + pl.out_x as u32 + col) % 0x1_0000_0000
}

/// The frame-buffer byte offset of pixel (row, col).
pub open spec fn lfb_index(pl: BlitPlan, bps: Seq<u32>, row: i32, col: int) -> int {
    (bps[line(pl, row)] + (pl.out_x as u32) * bytes_per_pixel(pl.bpp) + col * bytes_per_pixel(pl.bpp)) % 0x1_0000_0000
}

/// The bitmap byte offset of pixel (row, col): the clipped source origin and
/// the row offset each wrap at 32 bits.
pub open spec fn src_index(pl: BlitPlan, row: i32, col: int) -> int {
    pl.g.src_y.wrapping_mul(pl.stride) as int + pl.g.src_x.wrapping_mul(4) as int
        + row.wrapping_mul(pl.stride) as int + 4 * col
}

/// The cursor position of pixel (row, col): x in the high word, y in the low.
pub open spec fn cursor_pos(pl: BlitPlan, row: i32, col: i32) -> u32 {
    ((pl.out_x.wrapping_add(col) as u32) << 16u32) | (screen_y(pl, row) as u32 & 0xFFFF)
}

/// Whether the window owns pixel (row, col).
pub open spec fn owned(pl: BlitPlan, map: Seq<u8>, dw: Seq<u32>, row: i32, col: int) -> bool {
    map[map_index(pl, dw, row, col)] == pl.slot
}

/// `lfb` with `color` stored at `off` in the pixel format: four bytes, three
/// bytes, or two bytes of RGB565.
pub open spec fn put_pixel(lfb: Seq<u8>, off: int, bpp: u32, color: u32) -> Seq<u8> {
    if bpp == 32 {
        put_u32(lfb, off, color)
    } else if bpp == 24 {
        lfb.update(off, (color % 0x100) as u8).update(off + 1, ((color / 0x100) % 0x100) as u8)
            .update(off + 2, ((color / 0x1_0000) % 0x100) as u8)
    } else {
        let c = spec_rgb565(color);
        lfb.update(off, (c % 0x100) as u8).update(off + 1, (c / 0x100) as u8)
    }
}

/// Whether `c` is the colour stored for pixel (row, col): the bitmap's colour,
/// or with a software cursor what the cursor check answered for it.
pub open spec fn color_ok<F: Fn(u32, u32) -> u32>(pl: BlitPlan, bitmap: Seq<u8>, check_mouse: F, row: i32, col: i32, c: u32) -> bool {
    if pl.software {
        call_ensures(check_mouse, (le_u32(bitmap, src_index(pl, row, col as int)), cursor_pos(pl, row, col)), c)
    } else {
        c == le_u32(bitmap, src_index(pl, row, col as int))
    }
}

/// The frame buffer after the first `c` pixels of row `row`, in order.
pub open spec fn paint_row(lfb: Seq<u8>, pl: BlitPlan, map: Seq<u8>, dw: Seq<u32>, bps: Seq<u32>,
    colors: spec_fn(int, int) -> u32, row: i32, c: int) -> Seq<u8>
    decreases c,
{
    if c <= 0 {
        lfb
    } else {
        let prev = paint_row(lfb, pl, map, dw, bps, colors, row, c - 1);
        if owned(pl, map, dw, row, c - 1) {
            put_pixel(prev, lfb_index(pl, bps, row, c - 1), pl.bpp, colors(row as int, c - 1))
        } else {
            prev
        }
    }
}

/// The frame buffer after the first `r` rows, in order.
pub open spec fn paint_rows(lfb: Seq<u8>, pl: BlitPlan, map: Seq<u8>, dw: Seq<u32>, bps: Seq<u32>,
    colors: spec_fn(int, int) -> u32, r: int) -> Seq<u8>
    decreases r,
{
    if r <= 0 {
        lfb
    } else {
        paint_row(paint_rows(lfb, pl, map, dw, bps, colors, r - 1), pl, map, dw, bps, colors, (r - 1) as i32, pl.g.w as int)
    }
}

/// The buffers cover every pixel the blit touches: the line tables every
/// row, the window map every pixel, the bitmap and the frame buffer every
/// owned pixel.
pub open spec fn buffers_cover(pl: BlitPlan, bitmap: Seq<u8>, map: Seq<u8>, bps: Seq<u32>, dw: Seq<u32>, lfb_len: int) -> bool {
    &&& forall|row: i32| 0 <= row < pl.g.h ==> #[trigger] line(pl, row) < bps.len() && line(pl, row) < dw.len()
    &&& forall|row: i32, col: int| 0 <= row < pl.g.h && 0 <= col < pl.g.w ==>
        #[trigger] map_index(pl, dw, row, col) < map.len()
    &&& forall|row: i32, col: int| 0 <= row < pl.g.h && 0 <= col < pl.g.w && #[trigger] owned(pl, map, dw, row, col) ==> {
        &&& 0 <= src_index(pl, row, col as int)
        &&& src_index(pl, row, col as int) + 4 <= bitmap.len()
        &&& lfb_index(pl, bps, row, col) + bytes_per_pixel(pl.bpp) <= lfb_len
    }
}

/// Store one pixel (see [`put_pixel`]).
fn store_pixel(lfb: &mut [u8], off: usize, bpp: u32, color: u32)
    requires
        off + bytes_per_pixel(bpp) <= old(lfb)@.len(),
    ensures
        final(lfb)@ == put_pixel(old(lfb)@, off as int, bpp, color),
{
    if bpp == 32 {
        write_u32_le_slice(lfb, off, color);
    } else if bpp == 24 {
        lfb[off] = (color % 0x100) as u8;
        lfb[off + 1] = ((color / 0x100) % 0x100) as u8;
        lfb[off + 2] = ((color / 0x1_0000) % 0x100) as u8;
    } else {
        let c = fasm_pack_rgb565(color);
        lfb[off] = (c % 0x100) as u8;
        lfb[off + 1] = (c / 0x100) as u8;
    }
}

/// The plan of a request (see [`plan_of`]).
pub fn blit_plan(params: &[u8; 40], flags: u32, ctx: &Blit32Ctx) -> (r: Option<BlitPlan>)
    ensures
        r == plan_of(params@, flags, *ctx),
{
    let geom = BlitterGeom::new(
        Rect::new(0, 0, ctx.win_width.wrapping_add(1), ctx.win_height.wrapping_add(1)),
        Rect::new(0, 0, read_u32_le(params, PARAM_OFF_SRC_W) as i32, read_u32_le(params, PARAM_OFF_SRC_H) as i32),
        read_u32_le(params, PARAM_OFF_DST_X) as i32,
        read_u32_le(params, PARAM_OFF_DST_Y) as i32,
        read_u32_le(params, PARAM_OFF_SRC_X) as i32,
        read_u32_le(params, PARAM_OFF_SRC_Y) as i32,
        read_u32_le(params, PARAM_OFF_W) as i32,
        read_u32_le(params, PARAM_OFF_H) as i32,
    );
    assert(geom == request_geom(params@, *ctx));
    let clipped = blit_clip(geom);
    if !clipped.draw || clipped.geom.w == 0 || clipped.geom.h == 0 {
        return None;
    }
    let g = clipped.geom;
    let mut out_x = g.dst_x.wrapping_add(ctx.win_left);
    let mut out_y = g.dst_y.wrapping_add(ctx.win_top);
    if flags & BLIT_CLIENT_RELATIVE != 0 {
        out_x = out_x.wrapping_add(ctx.client_left);
        out_y = out_y.wrapping_add(ctx.client_top);
    }
    Some(BlitPlan {
        g,
        out_x,
        out_y,
        stride: read_u32_le(params, PARAM_OFF_STRIDE) as i32,
        slot: ctx.slot_idx as u8,
        bpp: ctx.bpp,
        software: ctx.select_cursor == ctx.software_cursor,
    })
}

/// Paint row `row`; `colors` gets the colour stored for each owned pixel.
fn paint_one_row<F: Fn(u32, u32) -> u32>(
    pl: &BlitPlan,
    row: i32,
    bitmap: &[u8],
    win_map: &[u8],
    bps_lut: &[u32],
    dwidth_lut: &[u32],
    lfb: &mut [u8],
    check_mouse: &F,
    colors: Ghost<spec_fn(int, int) -> u32>,
) -> (out: Ghost<spec_fn(int, int) -> u32>)
    requires
        0 <= row < pl.g.h,
        buffers_cover(*pl, bitmap@, win_map@, bps_lut@, dwidth_lut@, old(lfb)@.len() as int),
        forall|c: u32, p: u32| call_requires(*check_mouse, (c, p)),
    ensures
        final(lfb)@.len() == old(lfb)@.len(),
        forall|r: int, c: int| r != row ==> #[trigger] out@(r, c) == colors@(r, c),
        forall|c: i32| 0 <= c < pl.g.w && #[trigger] owned(*pl, win_map@, dwidth_lut@, row, c as int)
            ==> color_ok(*pl, bitmap@, *check_mouse, row, c, out@(row as int, c as int)),
        final(lfb)@ == paint_row(old(lfb)@, *pl, win_map@, dwidth_lut@, bps_lut@, out@, row, pl.g.w as int),
{
    let ghost start = lfb@;
    let bpb: u32 = if pl.bpp == 32 { 4 } else if pl.bpp == 24 { 3 } else { 2 };
    let y = pl.out_y.wrapping_add(row);
    let li = y as u32 as usize;
    assert(li == line(*pl, row));
    let mut lfb_off: u32 = bps_lut[li].wrapping_add((pl.out_x as u32).wrapping_mul(bpb));
    let mut map_off: u32 = dwidth_lut[li].wrapping_add(pl.out_x as u32);
    let src_row: i64 = pl.g.src_y.wrapping_mul(pl.stride) as i64 + pl.g.src_x.wrapping_mul(4) as i64
        + row.wrapping_mul(pl.stride) as i64;
    let ghost mut cols = colors@;
    proof {
        crate::wrap::lemma_wmul32(pl.out_x as u32, bpb);
        crate::wrap::lemma_wadd32(bps_lut@[li as int], (pl.out_x as u32).wrapping_mul(bpb));
        crate::wrap::lemma_mod32_add(bps_lut@[li as int] as int, (pl.out_x as u32) * bpb);
        crate::wrap::lemma_wadd32(dwidth_lut@[li as int], pl.out_x as u32);
    }
    let mut col: i32 = 0;
    while col < pl.g.w
        invariant
            0 <= row < pl.g.h,
            buffers_cover(*pl, bitmap@, win_map@, bps_lut@, dwidth_lut@, start.len() as int),
            forall|c: u32, p: u32| call_requires(*check_mouse, (c, p)),
            0 <= col,
            col <= pl.g.w || col == 0,
            bpb == bytes_per_pixel(pl.bpp),
            y == screen_y(*pl, row),
            li == line(*pl, row),
            lfb_off as int == lfb_index(*pl, bps_lut@, row, col as int),
            map_off as int == map_index(*pl, dwidth_lut@, row, col as int),
            src_row == src_index(*pl, row, 0),
            lfb@.len() == start.len(),
            forall|r: int, c: int| r != row ==> #[trigger] cols(r, c) == colors@(r, c),
            forall|c: i32| 0 <= c < col && #[trigger] owned(*pl, win_map@, dwidth_lut@, row, c as int)
                ==> color_ok(*pl, bitmap@, *check_mouse, row, c, cols(row as int, c as int)),
            lfb@ == paint_row(start, *pl, win_map@, dwidth_lut@, bps_lut@, cols, row, col as int),
        decreases pl.g.w - col,
    {
        assert(map_index(*pl, dwidth_lut@, row, col as int) < win_map@.len());
        let ghost before = lfb@;
        if win_map[map_off as usize] == pl.slot {
            assert(owned(*pl, win_map@, dwidth_lut@, row, col as int));
            let si: i64 = src_row + 4 * (col as i64);
            assert(si == src_index(*pl, row, col as int));
            assert(0 <= si && si + 4 <= bitmap@.len());
            assert(si + 4 <= bitmap.len());
            let sidx = si as usize;
            assert(sidx as int == si);
            let color = read_u32_le(bitmap, sidx);
            assert(color == le_u32(bitmap@, src_index(*pl, row, col as int)));
            let pos = ((pl.out_x.wrapping_add(col) as u32) << 16) | (y as u32 & 0xFFFF);
            assert(pos == cursor_pos(*pl, row, col));
            let c = if pl.software { check_mouse(color, pos) } else { color };
            let ghost prev_cols = cols;
            proof {
                cols = |r: int, k: int| if r == row && k == col { c } else { prev_cols(r, k) };
                lemma_paint_row_prefix(start, *pl, win_map@, dwidth_lut@, bps_lut@, cols, prev_cols, row, col as int);
                assert(color_ok(*pl, bitmap@, *check_mouse, row, col, cols(row as int, col as int)));
                assert forall|k: i32| 0 <= k < col + 1 && #[trigger] owned(*pl, win_map@, dwidth_lut@, row, k as int)
                    implies color_ok(*pl, bitmap@, *check_mouse, row, k, cols(row as int, k as int)) by {
                    if k < col {
                        assert(cols(row as int, k as int) == prev_cols(row as int, k as int));
                    }
                }
            }
            store_pixel(lfb, lfb_off as usize, pl.bpp, c);
            proof {
                lemma_paint_row_prefix(start, *pl, win_map@, dwidth_lut@, bps_lut@, cols, prev_cols, row, col as int + 1);
            }
        } else {
            proof {
                assert forall|k: i32| 0 <= k < col + 1 && #[trigger] owned(*pl, win_map@, dwidth_lut@, row, k as int)
                    implies color_ok(*pl, bitmap@, *check_mouse, row, k, cols(row as int, k as int)) by {
                    assert(k != col);
                }
            }
        }
        assert(lfb@ == paint_row(start, *pl, win_map@, dwidth_lut@, bps_lut@, cols, row, col as int + 1));
        proof {
            crate::wrap::lemma_wadd32(lfb_off, bpb);
            crate::wrap::lemma_mod32_add(bps_lut@[li as int] + (pl.out_x as u32) * bpb + col * bpb, bpb as int);
            crate::wrap::lemma_wadd32(map_off, 1);
            crate::wrap::lemma_mod32_add(dwidth_lut@[li as int] + pl.out_x as u32 + col, 1);
        }
        lfb_off = lfb_off.wrapping_add(bpb);
        map_off = map_off.wrapping_add(1);
        col = col + 1;
    }
    Ghost(cols)
}

/// Two colour choices that agree on the first `c` pixels of row `row` paint
/// that row prefix alike.
proof fn lemma_paint_row_prefix(lfb: Seq<u8>, pl: BlitPlan, map: Seq<u8>, dw: Seq<u32>, bps: Seq<u32>,
    a: spec_fn(int, int) -> u32, b: spec_fn(int, int) -> u32, row: i32, c: int)
    requires
        forall|k: int| 0 <= k < c - 1 ==> #[trigger] a(row as int, k) == b(row as int, k),
    ensures
        paint_row(lfb, pl, map, dw, bps, a, row, c - 1) == paint_row(lfb, pl, map, dw, bps, b, row, c - 1),
    decreases c,
{
    if c > 1 {
        lemma_paint_row_prefix(lfb, pl, map, dw, bps, a, b, row, c - 1);
    }
}

/// Whether `colors` holds an acceptable colour for every owned pixel of the
/// first `r` rows.
pub open spec fn colors_ok<F: Fn(u32, u32) -> u32>(pl: BlitPlan, bitmap: Seq<u8>, map: Seq<u8>, dw: Seq<u32>,
    check_mouse: F, colors: spec_fn(int, int) -> u32, r: int) -> bool {
    forall|row: i32, col: i32| 0 <= row < r && 0 <= col < pl.g.w && #[trigger] owned(pl, map, dw, row, col as int)
        ==> color_ok(pl, bitmap, check_mouse, row, col, colors(row as int, col as int))
}

/// Two colour choices that agree on the first `r` rows paint them alike.
proof fn lemma_paint_rows_agree(lfb: Seq<u8>, pl: BlitPlan, map: Seq<u8>, dw: Seq<u32>, bps: Seq<u32>,
    a: spec_fn(int, int) -> u32, b: spec_fn(int, int) -> u32, r: int)
    requires
        r <= i32::MAX,
        forall|row: int, k: int| 0 <= row < r ==> #[trigger] a(row, k) == b(row, k),
    ensures
        paint_rows(lfb, pl, map, dw, bps, a, r) == paint_rows(lfb, pl, map, dw, bps, b, r),
    decreases r,
{
    if r > 0 {
        lemma_paint_rows_agree(lfb, pl, map, dw, bps, a, b, r - 1);
        let prev = paint_rows(lfb, pl, map, dw, bps, a, r - 1);
        assert(((r - 1) as i32) as int == r - 1);
        lemma_paint_row_prefix(prev, pl, map, dw, bps, a, b, (r - 1) as i32, pl.g.w as int + 1);
    }
}

/// Blit the bitmap part the request names into the frame buffer (system call
/// 73): clip it to the window and the bitmap (see [`plan_of`]), then store,
/// row by row, each pixel whose window-map byte is the window's slot, in the
/// frame buffer's format; with a software cursor each colour first goes
/// through `check_mouse` (colour, position). `bitmap` is the source bitmap,
/// `win_map` the window map, `bps_lut` and `dwidth_lut` the per-line byte
/// offsets of the frame buffer and the window map.
pub fn blit_32<F: Fn(u32, u32) -> u32>(
    params: &[u8; 40],
    flags: u32,
    ctx: &Blit32Ctx,
    bitmap: &[u8],
    win_map: &[u8],
    bps_lut: &[u32],
    dwidth_lut: &[u32],
    lfb: &mut [u8],
    check_mouse: F,
)
    requires
        forall|c: u32, p: u32| call_requires(check_mouse, (c, p)),
        match plan_of(params@, flags, *ctx) {
            Some(pl) => buffers_cover(pl, bitmap@, win_map@, bps_lut@, dwidth_lut@, old(lfb)@.len() as int),
            None => true,
        },
    ensures
        match plan_of(params@, flags, *ctx) {
            None => final(lfb)@ == old(lfb)@,
            Some(pl) => exists|colors: spec_fn(int, int) -> u32|
                colors_ok(pl, bitmap@, win_map@, dwidth_lut@, check_mouse, colors, pl.g.h as int)
                && final(lfb)@ == paint_rows(old(lfb)@, pl, win_map@, dwidth_lut@, bps_lut@, colors, pl.g.h as int),
        },
{
    let pl = match blit_plan(params, flags, ctx) {
        Some(pl) => pl,
        None => {
            return;
        },
    };
    let ghost start = lfb@;
    let ghost mut colors: spec_fn(int, int) -> u32 = |r: int, c: int| 0u32;
    let mut row: i32 = 0;
    while row < pl.g.h
        invariant
            plan_of(params@, flags, *ctx) == Some(pl),
            buffers_cover(pl, bitmap@, win_map@, bps_lut@, dwidth_lut@, start.len() as int),
            forall|c: u32, p: u32| call_requires(check_mouse, (c, p)),
            0 <= row,
            row <= pl.g.h || row == 0,
            lfb@.len() == start.len(),
            colors_ok(pl, bitmap@, win_map@, dwidth_lut@, check_mouse, colors, row as int),
            lfb@ == paint_rows(start, pl, win_map@, dwidth_lut@, bps_lut@, colors, row as int),
        decreases pl.g.h - row,
    {
        let ghost before = lfb@;
        let ghost prev = colors;
        let Ghost(next) = paint_one_row(&pl, row, bitmap, win_map, bps_lut, dwidth_lut, lfb, &check_mouse, Ghost(colors));
        proof {
            colors = next;
            lemma_paint_rows_agree(start, pl, win_map@, dwidth_lut@, bps_lut@, next, prev, row as int);
            assert forall|r: i32, c: i32| 0 <= r < row + 1 && 0 <= c < pl.g.w && #[trigger] owned(pl, win_map@, dwidth_lut@, r, c as int)
                implies color_ok(pl, bitmap@, check_mouse, r, c, colors(r as int, c as int)) by {
                if r < row {
                    assert(colors(r as int, c as int) == prev(r as int, c as int));
                }
            }
            assert(lfb@ == paint_rows(start, pl, win_map@, dwidth_lut@, bps_lut@, colors, row as int + 1));
        }
        row = row + 1;
    }
    proof {
        if pl.g.h < 0 {
            assert(colors_ok(pl, bitmap@, win_map@, dwidth_lut@, check_mouse, colors, pl.g.h as int));
        }
    }
}

/// Whether byte `j` of the frame buffer lies in an owned pixel of the first
/// `c` pixels of row `row`.
pub open spec fn row_covers(pl: BlitPlan, map: Seq<u8>, dw: Seq<u32>, bps: Seq<u32>, row: i32, c: int, j: int) -> bool {
    exists|col: int| 0 <= col < c && #[trigger] owned(pl, map, dw, row, col)
        && lfb_index(pl, bps, row, col) <= j < lfb_index(pl, bps, row, col) + bytes_per_pixel(pl.bpp)
}

/// Whether byte `j` lies in an owned pixel of the first `r` rows.
pub open spec fn rows_cover(pl: BlitPlan, map: Seq<u8>, dw: Seq<u32>, bps: Seq<u32>, r: int, j: int) -> bool {
    exists|row: int| 0 <= row < r && #[trigger] row_covers(pl, map, dw, bps, row as i32, pl.g.w as int, j)
}

proof fn lemma_put_pixel_other(lfb: Seq<u8>, off: int, bpp: u32, color: u32, j: int)
    requires
        0 <= off,
        off + bytes_per_pixel(bpp) <= lfb.len(),
        0 <= j < lfb.len(),
        j < off || off + bytes_per_pixel(bpp) <= j,
    ensures
        put_pixel(lfb, off, bpp, color)[j] == lfb[j],
        put_pixel(lfb, off, bpp, color).len() == lfb.len(),
{
    if bpp == 32 {
        crate::le::lemma_put_u32_other(lfb, off, color, j);
    }
}

proof fn lemma_row_untouched(lfb: Seq<u8>, pl: BlitPlan, map: Seq<u8>, dw: Seq<u32>, bps: Seq<u32>,
    bitmap: Seq<u8>, colors: spec_fn(int, int) -> u32, row: i32, c: int, j: int)
    requires
        0 <= row < pl.g.h,
        c <= pl.g.w,
        buffers_cover(pl, bitmap, map, bps, dw, lfb.len() as int),
        0 <= j < lfb.len(),
        !row_covers(pl, map, dw, bps, row, c, j),
    ensures
        paint_row(lfb, pl, map, dw, bps, colors, row, c)[j] == lfb[j],
        paint_row(lfb, pl, map, dw, bps, colors, row, c).len() == lfb.len(),
    decreases c,
{
    if c > 0 {
        assert(!row_covers(pl, map, dw, bps, row, c - 1, j)) by {
            if row_covers(pl, map, dw, bps, row, c - 1, j) {
                let col = choose|col: int| 0 <= col < c - 1 && #[trigger] owned(pl, map, dw, row, col)
                    && lfb_index(pl, bps, row, col) <= j < lfb_index(pl, bps, row, col) + bytes_per_pixel(pl.bpp);
                assert(row_covers(pl, map, dw, bps, row, c, j));
            }
        }
        lemma_row_untouched(lfb, pl, map, dw, bps, bitmap, colors, row, c - 1, j);
        if owned(pl, map, dw, row, c - 1) {
            let prev = paint_row(lfb, pl, map, dw, bps, colors, row, c - 1);
            let off = lfb_index(pl, bps, row, c - 1);
            assert(!(off <= j < off + bytes_per_pixel(pl.bpp)));
            lemma_put_pixel_other(prev, off, pl.bpp, colors(row as int, c - 1), j);
        }
    }
}

/// The blit writes only inside the pixels the window owns: every frame-buffer
/// byte outside them keeps its value, whatever colours are stored.
pub proof fn law_blit_writes_only_owned_pixels(lfb: Seq<u8>, pl: BlitPlan, bitmap: Seq<u8>, map: Seq<u8>,
    dw: Seq<u32>, bps: Seq<u32>, colors: spec_fn(int, int) -> u32, r: int, j: int)
    requires
        0 <= r <= pl.g.h,
        buffers_cover(pl, bitmap, map, bps, dw, lfb.len() as int),
        0 <= j < lfb.len(),
        !rows_cover(pl, map, dw, bps, r, j),
    ensures
        paint_rows(lfb, pl, map, dw, bps, colors, r)[j] == lfb[j],
        paint_rows(lfb, pl, map, dw, bps, colors, r).len() == lfb.len(),
    decreases r,
{
    if r > 0 {
        assert(!rows_cover(pl, map, dw, bps, r - 1, j)) by {
            if rows_cover(pl, map, dw, bps, r - 1, j) {
                let row = choose|row: int| 0 <= row < r - 1 && #[trigger] row_covers(pl, map, dw, bps, row as i32, pl.g.w as int, j);
                assert(rows_cover(pl, map, dw, bps, r, j));
            }
        }
        law_blit_writes_only_owned_pixels(lfb, pl, bitmap, map, dw, bps, colors, r - 1, j);
        let prev = paint_rows(lfb, pl, map, dw, bps, colors, r - 1);
        assert(((r - 1) as i32) as int == r - 1);
        assert(!row_covers(pl, map, dw, bps, (r - 1) as i32, pl.g.w as int, j));
        lemma_row_untouched(prev, pl, map, dw, bps, bitmap, colors, (r - 1) as i32, pl.g.w as int, j);
    }
}

} // verus!
