use kolibri_utils::geometry::{Rect, BlockClipResult, BlitterGeom, BlitClipResult, block_clip, fasm_oracle_block_clip, blit_clip, fasm_oracle_blit_clip, block_clip_bytes, blit_clip_bytes, BLIT_CLIP_PRNG_SEED};


fn r(l: i32, t: i32, ri: i32, b: i32) -> Rect {
    Rect::new(l, t, ri, b)
}

fn bg(
    dc: Rect,
    sc: Rect,
    dst_x: i32,
    dst_y: i32,
    src_x: i32,
    src_y: i32,
    w: i32,
    h: i32,
) -> BlitterGeom {
    BlitterGeom::new(dc, sc, dst_x, dst_y, src_x, src_y, w, h)
}

#[test]
fn fully_inside_unchanged_draw() {
    let clip = r(0, 0, 100, 100);
    let rect = r(10, 20, 30, 40);
    let out = block_clip(clip, rect);
    assert!(out.draw);
    assert_eq!(out.rect, rect);
}

#[test]
fn clamp_each_edge() {
    let clip = r(10, 10, 90, 90);
    let out = block_clip(clip, r(0, 0, 100, 100));
    assert!(out.draw);
    assert_eq!(out.rect, r(10, 10, 90, 90));
}

#[test]
fn reject_left_of_clip() {
    let clip = r(50, 0, 100, 100);
    let rect = r(0, 10, 40, 20);
    let out = block_clip(clip, rect);
    assert!(!out.draw);
    assert_eq!(out.rect, rect); // X fail before mutate
}

#[test]
fn reject_right_of_clip() {
    let clip = r(0, 0, 50, 100);
    let rect = r(60, 10, 80, 20);
    let out = block_clip(clip, rect);
    assert!(!out.draw);
    assert_eq!(out.rect, rect);
}

#[test]
fn reject_above_clip() {
    let clip = r(0, 50, 100, 100);
    let rect = r(10, 0, 20, 40);
    let out = block_clip(clip, rect);
    assert!(!out.draw);
    assert_eq!(out.rect, rect); // Y fail; X needed no clamp
}

#[test]
fn reject_below_clip() {
    let clip = r(0, 0, 100, 50);
    let rect = r(10, 60, 20, 80);
    let out = block_clip(clip, rect);
    assert!(!out.draw);
    assert_eq!(out.rect, rect);
}

#[test]
fn y_fail_after_x_clamp_keeps_x_mutation() {
    let clip = r(10, 50, 90, 100);
    let rect = r(0, 0, 100, 40); // X overlaps and clamps; Y rejects
    let out = block_clip(clip, rect);
    assert!(!out.draw);
    assert_eq!(out.rect.left, 10);
    assert_eq!(out.rect.right, 90);
    assert_eq!(out.rect.top, 0);
    assert_eq!(out.rect.bottom, 40);
}

#[test]
fn touching_right_edge_is_reject() {
    // left >= clip.right → fail (FASM jge)
    let clip = r(0, 0, 50, 50);
    let rect = r(50, 0, 60, 10);
    let out = block_clip(clip, rect);
    assert!(!out.draw);
}

#[test]
fn touching_left_edge_with_overlap_draws() {
    // right == clip.left is NOT < clip.left → may still draw if extent > 0
    // FASM: `cmp right, clip.left` / `jl .fail` — equal does not fail
    let clip = r(50, 0, 100, 100);
    let rect = r(50, 10, 60, 20);
    let out = block_clip(clip, rect);
    assert!(out.draw);
    assert_eq!(out.rect, rect);
}

#[test]
fn negative_coordinates() {
    let clip = r(-100, -100, 0, 0);
    let out = block_clip(clip, r(-150, -80, -20, -10));
    assert!(out.draw);
    assert_eq!(out.rect, r(-100, -80, -20, -10));
}

#[test]
fn degenerate_zero_area_inside_draws() {
    // left==right inside clip: X checks pass (left < clip.right, right >= clip.left)
    let clip = r(0, 0, 100, 100);
    let rect = r(40, 40, 40, 50);
    let out = block_clip(clip, rect);
    assert!(out.draw);
    assert_eq!(out.rect, rect);
}

#[test]
fn bytes_roundtrip_and_ptr() {
    let clip = r(5, 5, 50, 50);
    let rect = r(0, 0, 100, 100);
    let clip_b = clip.to_bytes();
    let mut rect_b = rect.to_bytes();
    let code = block_clip_bytes(&clip_b, &mut rect_b);
    assert_eq!(code, 0);
    assert_eq!(Rect::from_bytes(&rect_b), r(5, 5, 50, 50));
}

#[test]
fn ptr_reject_returns_one() {
    let clip = r(100, 100, 200, 200);
    let rect = r(0, 0, 10, 10);
    let clip_b = clip.to_bytes();
    let mut rect_b = rect.to_bytes();
    let code = block_clip_bytes(&clip_b, &mut rect_b);
    assert_eq!(code, 1);
    assert_eq!(Rect::from_bytes(&rect_b), rect);
}

/// Differential: named + structured grids + PRNG vs FASM-faithful oracle.
#[test]
fn differential_oracle_corpus() {
    let named = [
        (r(0, 0, 100, 100), r(10, 20, 30, 40)),
        (r(10, 10, 90, 90), r(0, 0, 100, 100)),
        (r(50, 0, 100, 100), r(0, 10, 40, 20)),
        (r(0, 0, 50, 100), r(60, 10, 80, 20)),
        (r(0, 50, 100, 100), r(10, 0, 20, 40)),
        (r(0, 0, 100, 50), r(10, 60, 20, 80)),
        (r(10, 50, 90, 100), r(0, 0, 100, 40)),
        (r(0, 0, 50, 50), r(50, 0, 60, 10)),
        (r(50, 0, 100, 100), r(50, 10, 60, 20)),
        (r(-100, -100, 0, 0), r(-150, -80, -20, -10)),
        (r(0, 0, 100, 100), r(40, 40, 40, 50)),
        (r(i32::MIN / 2, i32::MIN / 2, i32::MAX / 2, i32::MAX / 2), r(-10, -10, 10, 10)),
    ];
    for (clip, rect) in named {
        assert_eq!(
            block_clip(clip, rect),
            fasm_oracle_block_clip(clip, rect),
            "named clip={clip:?} rect={rect:?}"
        );
    }

    // Structured grid over small signed coords (5^8 ≈ 390k cases)
    let coords = [-50i32, -1, 0, 25, 100];
    for &cl in &coords {
        for &ct in &coords {
            for &cr in &coords {
                for &cb in &coords {
                    let clip = r(cl, ct, cr, cb);
                    for &rl in &coords {
                        for &rt in &coords {
                            for &rr in &coords {
                                for &rb in &coords {
                                    let rect = r(rl, rt, rr, rb);
                                    assert_eq!(
                                        block_clip(clip, rect),
                                        fasm_oracle_block_clip(clip, rect),
                                        "grid clip={clip:?} rect={rect:?}"
                                    );
                                }
                            }
                        }
                    }
                }
            }
        }
    }

    // Deterministic PRNG corpus (seed documented for Cut H).
    const SEED: u32 = 0xC07_B10C; // "Cut H block"
    const CASES: u32 = 200_000;
    let mut state = SEED;
    let mut next = || -> u32 {
        state ^= state << 13;
        state ^= state >> 17;
        state ^= state << 5;
        state
    };
    for _ in 0..CASES {
        let a = next() as i32;
        let b = next() as i32;
        let c = next() as i32;
        let d = next() as i32;
        // Mix small and full-range coords
        let scale = (next() & 3) as i32;
        let map = |v: i32, s: i32| -> i32 {
            if s == 0 {
                (v % 201) - 100
            } else if s == 1 {
                (v % 2001) - 1000
            } else if s == 2 {
                v >> 16
            } else {
                v
            }
        };
        let clip = r(map(a, scale), map(b, scale), map(c, scale), map(d, scale));
        let e = next() as i32;
        let f = next() as i32;
        let g = next() as i32;
        let h = next() as i32;
        let rect = r(map(e, scale), map(f, scale), map(g, scale), map(h, scale));
        assert_eq!(
            block_clip(clip, rect),
            fasm_oracle_block_clip(clip, rect),
            "prng clip={clip:?} rect={rect:?}"
        );
    }
}

// ----- Cut CD: blit_clip -----

#[test]
fn blit_fully_inside_unchanged() {
    let b = bg(
        r(0, 0, 100, 100),
        r(0, 0, 100, 100),
        10,
        20,
        0,
        0,
        30,
        40,
    );
    let out = blit_clip(b);
    assert!(out.draw);
    assert_eq!(out.geom, b);
}

#[test]
fn blit_src_clamp_remaps_dst() {
    // sc clips left 10px of src; dst should shift accordingly.
    let b = bg(r(0, 0, 200, 200), r(10, 0, 100, 100), 50, 60, 0, 0, 50, 40);
    let out = blit_clip(b);
    assert!(out.draw);
    assert_eq!(out.geom.src_x, 10);
    assert_eq!(out.geom.w, 40);
    assert_eq!(out.geom.dst_x, 60); // 50 + (10-0)
    assert_eq!(out.geom.dst_y, 60);
    assert_eq!(out.geom.h, 40);
}

#[test]
fn blit_reject_src_outside_unchanged() {
    let b = bg(r(0, 0, 100, 100), r(50, 0, 100, 100), 0, 0, 0, 0, 40, 20);
    let out = blit_clip(b);
    assert!(!out.draw);
    assert_eq!(out.geom, b);
}

#[test]
fn blit_reject_dst_outside_unchanged() {
    // src ok in sc; remapped dst fully outside dc.
    let b = bg(r(0, 0, 50, 50), r(0, 0, 100, 100), 100, 100, 0, 0, 20, 20);
    let out = blit_clip(b);
    assert!(!out.draw);
    assert_eq!(out.geom, b);
}

#[test]
fn blit_clip_ptr_draw_and_reject() {
    let mut bytes = bg(
        r(0, 0, 100, 100),
        r(0, 0, 100, 100),
        10,
        10,
        0,
        0,
        20,
        20,
    )
    .to_bytes();
    // Plant non-zero bitmap/stride — must survive.
    bytes[56..60].copy_from_slice(&0xAABBCCDDu32.to_le_bytes());
    bytes[60..64].copy_from_slice(&0x11223344u32.to_le_bytes());
    let code = blit_clip_bytes(&mut bytes);
    assert_eq!(code, 0);
    assert_eq!(&bytes[56..60], &0xAABBCCDDu32.to_le_bytes());
    assert_eq!(&bytes[60..64], &0x11223344u32.to_le_bytes());

    let mut rej = bg(r(0, 0, 10, 10), r(50, 50, 100, 100), 0, 0, 0, 0, 20, 20).to_bytes();
    let before = rej;
    let code = blit_clip_bytes(&mut rej);
    assert_eq!(code, 1);
    assert_eq!(rej, before);
}

#[test]
fn blit_clip_differential_oracle() {
    let named = [
        bg(r(0, 0, 100, 100), r(0, 0, 100, 100), 10, 20, 0, 0, 30, 40),
        bg(r(0, 0, 200, 200), r(10, 0, 100, 100), 50, 60, 0, 0, 50, 40),
        bg(r(0, 0, 100, 100), r(50, 0, 100, 100), 0, 0, 0, 0, 40, 20),
        bg(r(0, 0, 50, 50), r(0, 0, 100, 100), 100, 100, 0, 0, 20, 20),
        bg(r(10, 10, 90, 90), r(0, 0, 100, 100), 0, 0, 0, 0, 100, 100),
        bg(r(-50, -50, 50, 50), r(-100, -100, 100, 100), -20, -10, -30, -40, 80, 90),
    ];
    for b in named {
        assert_eq!(
            blit_clip(b),
            fasm_oracle_blit_clip(b),
            "named {b:?}"
        );
    }

    let mut state = BLIT_CLIP_PRNG_SEED;
    let mut next = || -> u32 {
        state ^= state << 13;
        state ^= state >> 17;
        state ^= state << 5;
        state
    };
    const CASES: u32 = 50_000;
    for i in 0..CASES {
        let scale = (next() & 3) as i32;
        let map = |v: i32, s: i32| -> i32 {
            if s == 0 {
                (v % 201) - 100
            } else if s == 1 {
                (v % 2001) - 1000
            } else if s == 2 {
                v >> 16
            } else {
                v
            }
        };
        let vals: [i32; 12] = core::array::from_fn(|_| map(next() as i32, scale));
        // Ensure sc/dc have some extent variety; still allow degenerate.
        let b = bg(
            r(vals[0], vals[1], vals[2], vals[3]),
            r(vals[4], vals[5], vals[6], vals[7]),
            vals[8],
            vals[9],
            vals[10],
            vals[11],
            map(next() as i32, scale),
            map(next() as i32, scale),
        );
        assert_eq!(
            blit_clip(b),
            fasm_oracle_blit_clip(b),
            "prng case {i} {b:?}"
        );
    }
}
