use kolibri_utils::draw_char::{draw_char, draw_char_ptr, fasm_oracle_draw_char, DrawCharCtx};
use kolibri_utils::font::anti_aliasing;
use kolibri_utils::pixel::{oracle_subpixel_left, oracle_subpixel_right, DRAW_CHAR_PRNG_SEED};

type GetPixelFn = fn(u32) -> u32;

fn xorshift32(state: &mut u32) -> u32 {
    let mut x = *state;
    x ^= x << 13;
    x ^= x >> 17;
    x ^= x << 5;
    *state = x;
    x
}

fn mock_gp(_idx: u32) -> u32 {
    0x00CA_FEBA
}

const PAD: u32 = 64;

fn ctx_for(rows: u32, color: u32, mul: u32, pitch: u32, delta: u32, smooth: u32, edx_in: u32, gp: bool) -> DrawCharCtx {
    DrawCharCtx {
        color,
        multiplier: mul,
        buffer: PAD,
        glyph: 2,
        rows,
        width_x: pitch,
        delta_to_screen: delta,
        smoothing: smooth,
        getpixel: if gp { 1 } else { 0 },
        edx_in,
    }
}

#[allow(clippy::too_many_arguments)]
fn run_both(
    glyph: &[u8],
    rows: u32,
    color: u32,
    mul: u32,
    pitch: u32,
    delta: u32,
    smooth: u32,
    edx_in: u32,
    gp: Option<GetPixelFn>,
) -> (Vec<u8>, Vec<u8>) {
    let mut a = vec![0x11u8; 256 * 1024];
    let mut b = a.clone();
    let ctx = ctx_for(rows, color, mul, pitch, delta, smooth, edx_in, gp.is_some());
    draw_char(&ctx, glyph, &mut a, gp);
    fasm_oracle_draw_char(&ctx, glyph, &mut b, gp);
    (a, b)
}

fn assert_eq_buf(a: &[u8], b: &[u8], msg: &str) {
    assert_eq!(a.len(), b.len(), "{msg} len");
    if a != b {
        for (i, (x, y)) in a.iter().zip(b.iter()).enumerate() {
            if x != y {
                panic!("{msg} first diff at {i}: {x:#04x} vs {y:#04x}");
            }
        }
    }
}

fn pixel_at(buf: &[u8], off: usize) -> u32 {
    u32::from_le_bytes(buf[off..off + 4].try_into().unwrap())
}

#[test]
fn dch_empty_glyph_untouched() {
    let g = [0xAAu8, 0, 0, 0, 0, 0xBB];
    let (a, b) = run_both(&g, 3, 0x00FF_00FF, 1, 32, 0, 0, 0, None);
    assert_eq_buf(&a, &b, "empty");
    assert!(a.iter().all(|&x| x == 0x11), "empty must not plot");
}

#[test]
fn dch_single_bit_no_smooth() {
    let mut g = [0u8; 8];
    g[2] = 0b0000_1000;
    let (a, b) = run_both(&g, 1, 0x00AB_CDEF, 1, 64, 0, 0, 0, None);
    assert_eq_buf(&a, &b, "bit3");
    assert_eq!(pixel_at(&a, 64 + 3 * 4), 0x00AB_CDEF);
}

#[test]
fn dch_independent_unsmoothed_bits() {
    let mut g = [0u8; 20];
    g[2] = 0b1010_0101;
    g[3] = 0b0000_0001;
    let rows = 2u32;
    let color = 0x0011_2233;
    let pitch = 64u32;
    let (a, _) = run_both(&g, rows, color, 1, pitch, 0, 0, 0, None);
    for row in 0..rows as usize {
        let bits = g[2 + row];
        for bit in 0..8u32 {
            let off = 64 + row * pitch as usize + (bit as usize) * 4;
            let expect = if bits & (1 << bit) != 0 { color } else { 0x1111_1111 };
            assert_eq!(pixel_at(&a, off), expect, "row {row} bit {bit}");
        }
    }
}

#[test]
fn dch_dirty_edx_first_row() {
    let mut g = [0u8; 8];
    g[2] = 0x01;
    let (a, b) = run_both(&g, 1, 0x00FF_0000, 1, 64, 0, 0, 0x0000_0200, None);
    assert_eq_buf(&a, &b, "edx");
    assert_eq!(pixel_at(&a, 64 + 9 * 4), 0x00FF_0000, "bit 9 from DH");
}

#[test]
fn dch_smoothing_off_skips_blend() {
    let mut g = [0u8; 8];
    g[2] = 0b0000_0010;
    let (a, b) = run_both(&g, 1, 0x00FF_FF00, 1, 64, 0, 0, 0, None);
    assert_eq_buf(&a, &b, "nosm");
    assert_eq!(pixel_at(&a, 64), 0x1111_1111);
}

#[test]
fn dch_aa_matches_cut_n_formula() {
    let mut g = [0u8; 8];
    g[1] = 0b0000_0001;
    g[2] = 0b0000_0010;
    g[3] = 0b0000_0100;
    let bg = 0x1111_1111u32;
    let fg = 0x00FF_0000u32;
    let (a, b) = run_both(&g, 1, fg, 1, 64, 0, 1, 0, None);
    assert_eq_buf(&a, &b, "aa");
    assert_eq!(pixel_at(&a, 64), anti_aliasing(bg, fg));
}

#[test]
fn dch_subpixel_independent_weights() {
    let mut g = [0u8; 8];
    g[1] = 0b0000_0001;
    g[2] = 0b0000_0010;
    g[3] = 0b0000_0100;
    let fg = 0x00AA_BBCC;
    let (a, b) = run_both(&g, 1, fg, 1, 64, 0, 2, 0, None);
    assert_eq_buf(&a, &b, "sp");
    assert_eq!(pixel_at(&a, 64), oracle_subpixel_left(0x1111_1111, fg));
    assert_eq!(pixel_at(&a, 72), oracle_subpixel_right(0x1111_1111, fg));
}

#[test]
fn dch_multiplier_square() {
    let mut g = [0u8; 8];
    g[2] = 0b0000_0001;
    let (a, b) = run_both(&g, 1, 0x0000_00FF, 2, 64, 0, 0, 0, None);
    assert_eq_buf(&a, &b, "m2");
    for y in 0..2 {
        for x in 0..2 {
            assert_eq!(pixel_at(&a, 64 + y * 64 + x * 4), 0x0000_00FF, "m2 {x},{y}");
        }
    }
    for (i, ch) in a.chunks_exact(4).enumerate() {
        let pix = u32::from_le_bytes(ch.try_into().unwrap());
        let byte = i * 4;
        if byte < 64 {
            continue;
        }
        let rel = byte - 64;
        let row = rel / 64;
        let col = (rel % 64) / 4;
        if pix == 0x0000_00FF {
            assert!(row < 2 && col < 2, "unexpected plotted pixel dword {i} row={row} col={col}");
        }
    }
}

#[test]
fn dch_nine_rows_cp866() {
    let mut g = [0u8; 16];
    for i in 0..9 {
        g[2 + i] = if i % 2 == 0 { 0x81 } else { 0 };
    }
    let (a, b) = run_both(&g, 9, 0x00C0_FFEE, 1, 48, 0, 0, 0, None);
    assert_eq_buf(&a, &b, "9row");
}

#[test]
fn dch_getpixel_delta() {
    let mut g = [0u8; 8];
    g[1] = 0b0000_0001;
    g[2] = 0b0000_0010;
    g[3] = 0b0000_0100;
    let (a, b) = run_both(&g, 1, 0x00FF_FF00, 1, 64, 0x1000, 2, 0, Some(mock_gp));
    assert_eq_buf(&a, &b, "gp");
}

#[test]
fn dch_full_row_no_edge_gap() {
    let mut g = [0u8; 8];
    g[2] = 0xFF;
    let (a, b) = run_both(&g, 1, 0x0000_FF00, 1, 64, 0, 2, 0, None);
    assert_eq_buf(&a, &b, "full");
    for bit in 0..8 {
        assert_eq!(pixel_at(&a, 64 + bit * 4), 0x0000_FF00);
    }
}

#[test]
fn dch_bit0_bit7_edges() {
    let mut g = [0u8; 8];
    g[2] = 0x81;
    let (a, b) = run_both(&g, 1, 0x00DE_AD00, 1, 64, 0, 2, 0, None);
    assert_eq_buf(&a, &b, "edges");
}

#[test]
fn dch_canary_around_buffer() {
    let mut g = [0u8; 8];
    g[2] = 0x10;
    let (a, b) = run_both(&g, 1, 0x00BE_EF00, 1, 32, 0, 0, 0, None);
    assert_eq_buf(&a, &b, "canary");
    assert_eq!(&a[0..8], &[0x11; 8]);
}

#[test]
fn dch_prng_50k() {
    let mut rng = DRAW_CHAR_PRNG_SEED;
    for i in 0..50_000 {
        let rows = 1 + (xorshift32(&mut rng) % 16);
        let mul = 1;
        let smooth = xorshift32(&mut rng) % 3;
        let color = xorshift32(&mut rng) & 0x00FF_FFFF;
        let edx_in = if xorshift32(&mut rng) & 7 == 0 { xorshift32(&mut rng) & 0x0000_FF00 } else { 0 };
        let delta = if xorshift32(&mut rng) & 3 == 0 { 0x2000 } else { 0 };
        let gp = if delta != 0 { Some(mock_gp as GetPixelFn) } else { None };
        let mut glyph = vec![0u8; rows as usize + 4];
        for b in glyph.iter_mut().skip(2).take(rows as usize) {
            *b = (xorshift32(&mut rng) & 0xFF) as u8;
        }
        let pitch = 128 + ((8 * mul as usize + 16) * 4) as u32;
        let (a, b) = run_both(&glyph, rows, color, mul, pitch, delta, smooth, edx_in, gp);
        if a != b {
            let pos = a.iter().zip(b.iter()).position(|(x, y)| x != y);
            panic!(
                "prng#{i} rows={rows} mul={mul} sm={smooth} d={delta:#x} edx={edx_in:#x} glyph={glyph:?} first_diff={pos:?}"
            );
        }
        if mul == 1 && smooth == 0 && edx_in == 0 && delta == 0 {
            let mut expect = vec![0x11u8; a.len()];
            let pitch_us = pitch as usize;
            for row in 0..rows as usize {
                let bits = glyph[2 + row];
                for bit in 0..8u32 {
                    if bits & (1 << bit) != 0 {
                        let off = 64 + row * pitch_us + (bit as usize) * 4;
                        expect[off..off + 4].copy_from_slice(&color.to_le_bytes());
                    }
                }
            }
            if a != expect {
                panic!("prng#{i} independent unsmoothed 1x mismatch");
            }
        }
    }
}

#[test]
fn draw_char_ptr_ignores_multiplier_and_uses_thunk_only_when_installed() {
    let mut g = [0u8; 8];
    g[1] = 0b0000_0001;
    g[2] = 0b0000_0010;
    g[3] = 0b0000_0100;
    let fg = 0x00AA_BBCC;
    // Scale 3 requested, but the kernel entry draws one pixel per bit.
    let mut a = vec![0x11u8; 4096];
    let ctx = ctx_for(1, fg, 3, 64, 0x1000, 2, 0, false);
    draw_char_ptr(&ctx, &g, &mut a, mock_gp);
    assert_eq!(pixel_at(&a, 64 + 4), fg);
    // No thunk installed: the neighbour colour reads as 0.
    assert_eq!(pixel_at(&a, 64), oracle_subpixel_left(0, fg));
    assert_eq!(pixel_at(&a, 72), oracle_subpixel_right(0, fg));
    // Thunk installed: the neighbour colour is the thunk's.
    let mut b = vec![0x11u8; 4096];
    let ctx2 = ctx_for(1, fg, 3, 64, 0x1000, 2, 0, true);
    draw_char_ptr(&ctx2, &g, &mut b, mock_gp);
    assert_eq!(pixel_at(&b, 64), oracle_subpixel_left(0x00CA_FEBA, fg));
    assert_eq!(pixel_at(&b, 72), oracle_subpixel_right(0x00CA_FEBA, fg));
    // Nothing below the single row was touched.
    assert!(a[128..].iter().all(|&x| x == 0x11));
}

#[test]
fn draw_char_scale_two_rounds_a_diagonal() {
    // Two bits on a diagonal: row 0 bit 1, row 1 bit 0, at scale 2.
    let mut g = [0u8; 10];
    g[2] = 0b0000_0010;
    g[3] = 0b0000_0001;
    let color = 0x0012_3456;
    let mut a = vec![0x11u8; 4096];
    let ctx = DrawCharCtx {
        color,
        multiplier: 2,
        buffer: 256,
        glyph: 2,
        rows: 2,
        width_x: 64,
        delta_to_screen: 0,
        smoothing: 0,
        getpixel: 0,
        edx_in: 0,
    };
    draw_char(&ctx, &g, &mut a, None::<GetPixelFn>);
    // The two 2x2 cells.
    for y in 0..2usize {
        for x in 0..2usize {
            assert_eq!(pixel_at(&a, 256 + y * 64 + (2 + x) * 4), color);
            assert_eq!(pixel_at(&a, 256 + (2 + y) * 64 + x * 4), color);
        }
    }
    // The diagonal gap at the inner corners is filled.
    assert_eq!(pixel_at(&a, 256 + 64 + 4), color);
    assert_eq!(pixel_at(&a, 256 + 2 * 64 + 2 * 4), color);
    // Outer corners stay untouched.
    assert_eq!(pixel_at(&a, 256), 0x1111_1111);
    assert_eq!(pixel_at(&a, 256 + 3 * 64 + 3 * 4), 0x1111_1111);
}

#[test]
fn draw_char_scale_three_fills_every_cell() {
    let mut g = [0u8; 8];
    g[2] = 0b0000_0100;
    g[3] = 0b0000_0101;
    let color = 0x00AB_CDEF;
    let mut a = vec![0x11u8; 8192];
    let ctx = DrawCharCtx {
        color,
        multiplier: 3,
        buffer: 512,
        glyph: 2,
        rows: 2,
        width_x: 128,
        delta_to_screen: 0,
        smoothing: 0,
        getpixel: 0,
        edx_in: 0,
    };
    draw_char(&ctx, &g, &mut a, None::<GetPixelFn>);
    for (row, bits) in [(0usize, g[2]), (1usize, g[3])] {
        for bit in 0..8usize {
            if bits & (1 << bit) == 0 {
                continue;
            }
            for i in 0..3usize {
                for k in 0..3usize {
                    let off = 512 + (row * 3 + i) * 128 + 4 * (bit * 3 + k);
                    assert_eq!(pixel_at(&a, off), color, "row {row} bit {bit} ({i},{k})");
                }
            }
        }
    }
}
