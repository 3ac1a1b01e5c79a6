use kolibri_utils::blit::{blit_32, Blit32Ctx};
use kolibri_utils::geometry::{fasm_oracle_blit_clip, BlitterGeom, Rect};
use kolibri_utils::pixel::{
    independent_pack_rgb565, BLIT32_PRNG_SEED, BLIT_CLIENT_RELATIVE, PARAM_OFF_BITMAP, PARAM_OFF_DST_X,
    PARAM_OFF_DST_Y, PARAM_OFF_H, PARAM_OFF_SRC_H, PARAM_OFF_SRC_W, PARAM_OFF_SRC_X, PARAM_OFF_SRC_Y,
    PARAM_OFF_STRIDE, PARAM_OFF_W, PARAM_SIZE,
};

struct Xor32(u32);

impl Xor32 {
    fn next(&mut self) -> u32 {
        let mut x = self.0;
        x ^= x << 13;
        x ^= x >> 17;
        x ^= x << 5;
        self.0 = x;
        x
    }
    fn bounded(&mut self, n: u32) -> u32 {
        if n == 0 {
            0
        } else {
            self.next() % n
        }
    }
}

const MAX_W: usize = 16;
const MAX_H: usize = 16;
const LFB_BYTES: usize = MAX_H * MAX_W * 4;

fn fill_luts(bps: &mut [u32], dw: &mut [u32], pitch: u32, width: u32) {
    for y in 0..MAX_H {
        bps[y] = (y as u32).wrapping_mul(pitch);
        dw[y] = (y as u32).wrapping_mul(width);
    }
}

fn mouse_xor(color: u32, pos: u32) -> u32 {
    color ^ pos
}

fn no_mouse(color: u32, _pos: u32) -> u32 {
    color
}

fn i32_le(b: &[u8], off: usize) -> i32 {
    i32::from_le_bytes([b[off], b[off + 1], b[off + 2], b[off + 3]])
}

/// Separately written nested-loop model of the blit (clip via the register
/// transcription of the clipper).
fn oracle(
    p: &[u8; PARAM_SIZE],
    flags: u32,
    ctx: &Blit32Ctx,
    bitmap: &[u8],
    map: &[u8],
    bps: &[u32],
    dw: &[u32],
    lfb: &mut [u8],
    mouse: fn(u32, u32) -> u32,
) {
    let geom = BlitterGeom::new(
        Rect::new(0, 0, ctx.win_width.wrapping_add(1), ctx.win_height.wrapping_add(1)),
        Rect::new(0, 0, i32_le(p, PARAM_OFF_SRC_W), i32_le(p, PARAM_OFF_SRC_H)),
        i32_le(p, PARAM_OFF_DST_X),
        i32_le(p, PARAM_OFF_DST_Y),
        i32_le(p, PARAM_OFF_SRC_X),
        i32_le(p, PARAM_OFF_SRC_Y),
        i32_le(p, PARAM_OFF_W),
        i32_le(p, PARAM_OFF_H),
    );
    let stride = i32_le(p, PARAM_OFF_STRIDE);
    let clipped = fasm_oracle_blit_clip(geom);
    if !clipped.draw || clipped.geom.w == 0 || clipped.geom.h == 0 {
        return;
    }
    let g = clipped.geom;
    let mut ox = g.dst_x.wrapping_add(ctx.win_left);
    let mut oy = g.dst_y.wrapping_add(ctx.win_top);
    if (flags & BLIT_CLIENT_RELATIVE) != 0 {
        ox = ox.wrapping_add(ctx.client_left);
        oy = oy.wrapping_add(ctx.client_top);
    }
    let software = ctx.select_cursor == ctx.software_cursor;
    let slot = ctx.slot_idx as u8;
    let bytes_pp: u32 = if ctx.bpp == 32 { 4 } else if ctx.bpp == 24 { 3 } else { 2 };
    for row in 0..g.h {
        let y = oy.wrapping_add(row);
        let map_row = dw[y as u32 as usize].wrapping_add(ox as u32);
        let lfb_row = bps[y as u32 as usize].wrapping_add((ox as u32).wrapping_mul(bytes_pp));
        for col in 0..g.w {
            if map[map_row.wrapping_add(col as u32) as usize] != slot {
                continue;
            }
            let s = (g.src_y.wrapping_add(row).wrapping_mul(stride).wrapping_add(g.src_x.wrapping_add(col).wrapping_mul(4)))
                as usize;
            let mut color = u32::from_le_bytes([bitmap[s], bitmap[s + 1], bitmap[s + 2], bitmap[s + 3]]);
            let pos = ((ox.wrapping_add(col) as u32) << 16) | (y as u32 & 0xFFFF);
            if software {
                color = mouse(color, pos);
            }
            let d = lfb_row.wrapping_add((col as u32).wrapping_mul(bytes_pp)) as usize;
            if ctx.bpp == 32 {
                lfb[d..d + 4].copy_from_slice(&color.to_le_bytes());
            } else if ctx.bpp == 24 {
                lfb[d] = color as u8;
                lfb[d + 1] = (color >> 8) as u8;
                lfb[d + 2] = (color >> 16) as u8;
            } else {
                lfb[d..d + 2].copy_from_slice(&independent_pack_rgb565(color).to_le_bytes());
            }
        }
    }
}

/// Run the library blit and the model on frame buffers filled with 0xA5.
fn run_pair(
    params: &[u8; PARAM_SIZE],
    flags: u32,
    ctx: &Blit32Ctx,
    src: &[u8],
    map: &[u8],
    bps: &[u32],
    dw: &[u32],
    mouse: fn(u32, u32) -> u32,
) -> ([u8; LFB_BYTES], [u8; LFB_BYTES]) {
    let mut a = [0xA5u8; LFB_BYTES];
    let mut b = [0xA5u8; LFB_BYTES];
    blit_32(params, flags, ctx, src, map, bps, dw, &mut a, mouse);
    oracle(params, flags, ctx, src, map, bps, dw, &mut b, mouse);
    (a, b)
}

fn pack_params(
    dst_x: i32,
    dst_y: i32,
    w: i32,
    h: i32,
    src_x: i32,
    src_y: i32,
    src_w: i32,
    src_h: i32,
    bitmap: u32,
    stride: i32,
) -> [u8; PARAM_SIZE] {
    let mut p = [0u8; PARAM_SIZE];
    p[PARAM_OFF_DST_X..PARAM_OFF_DST_X + 4].copy_from_slice(&dst_x.to_le_bytes());
    p[PARAM_OFF_DST_Y..PARAM_OFF_DST_Y + 4].copy_from_slice(&dst_y.to_le_bytes());
    p[PARAM_OFF_W..PARAM_OFF_W + 4].copy_from_slice(&w.to_le_bytes());
    p[PARAM_OFF_H..PARAM_OFF_H + 4].copy_from_slice(&h.to_le_bytes());
    p[PARAM_OFF_SRC_X..PARAM_OFF_SRC_X + 4].copy_from_slice(&src_x.to_le_bytes());
    p[PARAM_OFF_SRC_Y..PARAM_OFF_SRC_Y + 4].copy_from_slice(&src_y.to_le_bytes());
    p[PARAM_OFF_SRC_W..PARAM_OFF_SRC_W + 4].copy_from_slice(&src_w.to_le_bytes());
    p[PARAM_OFF_SRC_H..PARAM_OFF_SRC_H + 4].copy_from_slice(&src_h.to_le_bytes());
    p[PARAM_OFF_BITMAP..PARAM_OFF_BITMAP + 4].copy_from_slice(&bitmap.to_le_bytes());
    p[PARAM_OFF_STRIDE..PARAM_OFF_STRIDE + 4].copy_from_slice(&stride.to_le_bytes());
    p
}

fn ctx(bpp: u32, slot_idx: u32, select_cursor: u32, software_cursor: u32) -> Blit32Ctx {
    Blit32Ctx {
        win_left: 0,
        win_top: 0,
        win_width: 7,
        win_height: 7,
        client_left: 0,
        client_top: 0,
        slot_idx,
        bpp,
        display_width: MAX_W as u32,
        lfb_pitch: (MAX_W * 4) as u32,
        select_cursor,
        software_cursor,
    }
}

#[test]
fn bl32_hw32_full_window_exact() {
    let map = [1u8; MAX_W * MAX_H];
    let mut bps = [0u32; MAX_H];
    let mut dw = [0u32; MAX_H];
    fill_luts(&mut bps, &mut dw, (MAX_W * 4) as u32, MAX_W as u32);
    let mut src = [0u8; MAX_W * MAX_H * 4];
    for (i, ch) in src.chunks_exact_mut(4).enumerate() {
        ch.copy_from_slice(&(0xAA000000u32.wrapping_add(i as u32)).to_le_bytes());
    }
    let params = pack_params(0, 0, 4, 3, 0, 0, 8, 8, 0, (MAX_W * 4) as i32);
    let c = ctx(32, 1, 0x1111, 0x2222);
    let (a, b) = run_pair(&params, 0, &c, &src, &map, &bps, &dw, no_mouse);
    assert_eq!(a, b);
    assert_eq!(&a[0..4], &src[0..4]);
}

#[test]
fn bl32_win_map_skips_foreign() {
    let mut map = [1u8; MAX_W * MAX_H];
    map[1] = 9;
    let mut bps = [0u32; MAX_H];
    let mut dw = [0u32; MAX_H];
    fill_luts(&mut bps, &mut dw, (MAX_W * 4) as u32, MAX_W as u32);
    let mut src = [0u8; 64];
    src[0..4].copy_from_slice(&0x1111_1111u32.to_le_bytes());
    src[4..8].copy_from_slice(&0x2222_2222u32.to_le_bytes());
    src[8..12].copy_from_slice(&0x3333_3333u32.to_le_bytes());
    let params = pack_params(0, 0, 3, 1, 0, 0, 8, 8, 0, 16);
    let c = ctx(32, 1, 1, 2);
    let (a, b) = run_pair(&params, 0, &c, &src, &map, &bps, &dw, no_mouse);
    assert_eq!(a, b);
    assert_eq!(&a[0..4], &0x1111_1111u32.to_le_bytes());
    assert_eq!(&a[4..8], &[0xA5, 0xA5, 0xA5, 0xA5]);
    assert_eq!(&a[8..12], &0x3333_3333u32.to_le_bytes());
}

#[test]
fn bl32_clip_reject_untouched() {
    let map = [1u8; MAX_W * MAX_H];
    let mut bps = [0u32; MAX_H];
    let mut dw = [0u32; MAX_H];
    fill_luts(&mut bps, &mut dw, (MAX_W * 4) as u32, MAX_W as u32);
    let src = [0x44u8; 64];
    let params = pack_params(100, 100, 4, 4, 0, 0, 8, 8, 0, 16);
    let c = ctx(32, 1, 1, 2);
    let (a, b) = run_pair(&params, 0, &c, &src, &map, &bps, &dw, no_mouse);
    assert_eq!(a, b);
    assert!(a.iter().all(|&x| x == 0xA5));
}

#[test]
fn bl32_zero_wh_untouched() {
    let map = [1u8; MAX_W * MAX_H];
    let mut bps = [0u32; MAX_H];
    let mut dw = [0u32; MAX_H];
    fill_luts(&mut bps, &mut dw, (MAX_W * 4) as u32, MAX_W as u32);
    let src = [0x55u8; 16];
    for (w, h) in [(0, 4), (4, 0)] {
        let params = pack_params(0, 0, w, h, 0, 0, 8, 8, 0, 16);
        let c = ctx(32, 1, 1, 2);
        let (a, b) = run_pair(&params, 0, &c, &src, &map, &bps, &dw, no_mouse);
        assert_eq!(a, b);
        assert!(a.iter().all(|&x| x == 0xA5), "w={w} h={h}");
    }
}

#[test]
fn bl32_software_cursor_mouse_rewrite() {
    let map = [1u8; MAX_W * MAX_H];
    let mut bps = [0u32; MAX_H];
    let mut dw = [0u32; MAX_H];
    fill_luts(&mut bps, &mut dw, (MAX_W * 4) as u32, MAX_W as u32);
    let mut src = [0u8; 16];
    src[0..4].copy_from_slice(&0x00AA_BBCCu32.to_le_bytes());
    let params = pack_params(2, 1, 1, 1, 0, 0, 8, 8, 0, 16);
    let mut c = ctx(32, 1, 0xC0DE, 0xC0DE);
    c.win_left = 1;
    c.win_top = 1;
    let (a, b) = run_pair(&params, 0, &c, &src, &map, &bps, &dw, mouse_xor);
    assert_eq!(a, b);
    let x = 2 + 1;
    let y = 1 + 1;
    let pos = ((x as u32) << 16) | (y as u32);
    let expect = 0x00AA_BBCCu32 ^ pos;
    let off = (y as usize) * MAX_W * 4 + (x as usize) * 4;
    assert_eq!(&a[off..off + 4], &expect.to_le_bytes());
}

#[test]
fn bl32_client_relative_and_24bpp() {
    let map = [3u8; MAX_W * MAX_H];
    let mut bps = [0u32; MAX_H];
    let mut dw = [0u32; MAX_H];
    fill_luts(&mut bps, &mut dw, (MAX_W * 3) as u32, MAX_W as u32);
    let mut src = [0u8; 16];
    src[0..4].copy_from_slice(&0x0011_2233u32.to_le_bytes());
    let params = pack_params(0, 0, 1, 1, 0, 0, 4, 4, 0, 16);
    let mut c = ctx(24, 3, 1, 2);
    c.win_left = 1;
    c.win_top = 2;
    c.client_left = 2;
    c.client_top = 1;
    c.lfb_pitch = (MAX_W * 3) as u32;
    let (a, b) = run_pair(&params, BLIT_CLIENT_RELATIVE, &c, &src, &map, &bps, &dw, no_mouse);
    assert_eq!(a, b);
    let x = 1 + 2;
    let y = 2 + 1;
    let off = (y as usize) * MAX_W * 3 + (x as usize) * 3;
    assert_eq!(a[off], 0x33);
    assert_eq!(a[off + 1], 0x22);
    assert_eq!(a[off + 2], 0x11);
}

#[test]
fn bl32_16bpp_and_odd_bpp_uses_16_path() {
    let map = [1u8; MAX_W * MAX_H];
    let mut bps = [0u32; MAX_H];
    let mut dw = [0u32; MAX_H];
    fill_luts(&mut bps, &mut dw, (MAX_W * 2) as u32, MAX_W as u32);
    let mut src = [0u8; 16];
    src[0..4].copy_from_slice(&0x00FF_8000u32.to_le_bytes());
    for bpp in [16u32, 8, 0, 15] {
        let params = pack_params(0, 0, 1, 1, 0, 0, 4, 4, 0, 16);
        let mut c = ctx(bpp, 1, 1, 2);
        c.lfb_pitch = (MAX_W * 2) as u32;
        let (a, b) = run_pair(&params, 0, &c, &src, &map, &bps, &dw, no_mouse);
        assert_eq!(a, b, "bpp={bpp}");
        let packed = independent_pack_rgb565(0x00FF_8000);
        assert_eq!(&a[0..2], &packed.to_le_bytes(), "bpp={bpp}");
    }
}

#[test]
fn bl32_prng_50000() {
    let mut rng = Xor32(BLIT32_PRNG_SEED);
    let mut src = [0u8; MAX_W * MAX_H * 4];
    let mut map = [0u8; MAX_W * MAX_H];
    let mut bps = [0u32; MAX_H];
    let mut dw = [0u32; MAX_H];
    for case in 0..50_000u32 {
        let bpp_sel = rng.bounded(4);
        let bpp = match bpp_sel {
            0 => 32,
            1 => 24,
            2 => 16,
            _ => rng.bounded(15),
        };
        let bytes_pp = if bpp == 32 { 4 } else if bpp == 24 { 3 } else { 2 };
        let pitch = (MAX_W as u32) * bytes_pp;
        fill_luts(&mut bps, &mut dw, pitch, MAX_W as u32);
        let slot = (rng.bounded(4) + 1) as u8;
        for m in map.iter_mut() {
            *m = if rng.bounded(4) == 0 { slot.wrapping_add(1) } else { slot };
        }
        for ch in src.chunks_exact_mut(4) {
            ch.copy_from_slice(&rng.next().to_le_bytes());
        }
        let w = (rng.bounded(6) + 1) as i32;
        let h = (rng.bounded(6) + 1) as i32;
        let dst_x = rng.bounded(4) as i32;
        let dst_y = rng.bounded(4) as i32;
        let flags = if rng.bounded(2) == 0 { 0 } else { BLIT_CLIENT_RELATIVE };
        let software = rng.bounded(2) == 0;
        let params = pack_params(dst_x, dst_y, w, h, 0, 0, 8, 8, 0, (MAX_W * 4) as i32);
        let cur = 0xABCDu32;
        let c = Blit32Ctx {
            win_left: rng.bounded(3) as i32,
            win_top: rng.bounded(3) as i32,
            win_width: 10,
            win_height: 10,
            client_left: rng.bounded(2) as i32,
            client_top: rng.bounded(2) as i32,
            slot_idx: slot as u32,
            bpp,
            display_width: MAX_W as u32,
            lfb_pitch: pitch,
            select_cursor: cur,
            software_cursor: if software { cur } else { cur ^ 1 },
        };
        let mouse: fn(u32, u32) -> u32 = if software && rng.bounded(2) == 0 { mouse_xor } else { no_mouse };
        let (a, b) = run_pair(&params, flags, &c, &src, &map, &bps, &dw, mouse);
        assert_eq!(a, b, "case {case} bpp={bpp}");
    }
}
