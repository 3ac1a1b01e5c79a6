//! Rectangle clipping (`block_clip`) and blitter source/destination clipping
//! (`blit_clip`), with signed compares and FASM-faithful partial mutation.

use vstd::prelude::*;
use crate::le::{le_u32, put_u32, read_u32_le, write_u32_le_arr, lemma_le_u32_put, lemma_le_u32_put_other, lemma_put_u32_other,
    lemma_put_u32_same};

verus! {

/// PRNG seed of the blit-clip corpus.
pub const BLIT_CLIP_PRNG_SEED: u32 = 0x424C_4954;

/// `BLITTER` layout offsets.
pub const BLITTER_OFF_DC: usize = 0;
pub const BLITTER_OFF_SC: usize = 16;
pub const BLITTER_OFF_DST_X: usize = 32;
pub const BLITTER_OFF_DST_Y: usize = 36;
pub const BLITTER_OFF_SRC_X: usize = 40;
pub const BLITTER_OFF_SRC_Y: usize = 44;
pub const BLITTER_OFF_W: usize = 48;
pub const BLITTER_OFF_H: usize = 52;
pub const BLITTER_SIZE: usize = 64;

/// Axis-aligned rectangle `{left, top, right, bottom}` of signed dwords.
#[derive(Clone, Copy, Debug, PartialEq, Eq)]
pub struct Rect {
    pub left: i32,
    pub top: i32,
    pub right: i32,
    pub bottom: i32,
}

/// Whether to draw, plus the rectangle after clipping.
#[derive(Clone, Copy, Debug, PartialEq, Eq)]
pub struct BlockClipResult {
    /// `true` = draw (carry clear); `false` = reject (carry set).
    pub draw: bool,
    pub rect: Rect,
}

/// Geometry fields of a `BLITTER`.
#[derive(Clone, Copy, Debug, PartialEq, Eq)]
pub struct BlitterGeom {
    pub dc: Rect,
    pub sc: Rect,
    pub dst_x: i32,
    pub dst_y: i32,
    pub src_x: i32,
    pub src_y: i32,
    pub w: i32,
    pub h: i32,
}

/// Whether to draw, plus the (possibly remapped) blitter geometry.
#[derive(Clone, Copy, Debug, PartialEq, Eq)]
pub struct BlitClipResult {
    /// `true` = draw; `false` = reject.
    pub draw: bool,
    pub geom: BlitterGeom,
}

/// `block_clip`: reject when the rectangle lies left of, right of, above or
/// below the clip (touching the right/bottom edge rejects, touching the
/// left/top edge does not); otherwise clamp each edge into the clip. A Y-axis
/// reject keeps the X-axis clamping already done.
pub open spec fn spec_block_clip(clip: Rect, rect: Rect) -> BlockClipResult {
    if rect.left >= clip.right || rect.right < clip.left {
        BlockClipResult { draw: false, rect }
    } else {
        let rx = Rect {
            left: if rect.left < clip.left { clip.left } else { rect.left },
            right: if rect.right > clip.right { clip.right } else { rect.right },
            ..rect
        };
        if rx.top >= clip.bottom || rx.bottom < clip.top {
            BlockClipResult { draw: false, rect: rx }
        } else {
            BlockClipResult {
                draw: true,
                rect: Rect {
                    top: if rx.top < clip.top { clip.top } else { rx.top },
                    bottom: if rx.bottom > clip.bottom { clip.bottom } else { rx.bottom },
                    ..rx
                },
            }
        }
    }
}

/// The 16-byte little-endian memory image of a rectangle.
pub open spec fn rect_bytes(r: Rect) -> Seq<u8> {
    put_u32(put_u32(put_u32(put_u32(Seq::new(16, |i: int| 0u8), 0, r.left as u32), 4, r.top as u32),
        8, r.right as u32), 12, r.bottom as u32)
}

/// The rectangle stored at `off` in `b`.
pub open spec fn rect_at(b: Seq<u8>, off: int) -> Rect {
    Rect {
        left: le_u32(b, off) as i32,
        top: le_u32(b, off + 4) as i32,
        right: le_u32(b, off + 8) as i32,
        bottom: le_u32(b, off + 12) as i32,
    }
}

impl Rect {
    pub fn new(left: i32, top: i32, right: i32, bottom: i32) -> (r: Self)
        ensures
            r == (Rect { left, top, right, bottom }),
    {
        Self { left, top, right, bottom }
    }

    /// Pack into the 16-byte little-endian layout.
    pub fn to_bytes(self) -> (b: [u8; 16])
        ensures
            b@ == rect_bytes(self),
            rect_at(b@, 0) == self,
    {
        let mut b = [0u8; 16];
        assert(b@ =~= Seq::new(16, |i: int| 0u8));
        write_u32_le_arr(&mut b, 0, self.left as u32);
        write_u32_le_arr(&mut b, 4, self.top as u32);
        write_u32_le_arr(&mut b, 8, self.right as u32);
        write_u32_le_arr(&mut b, 12, self.bottom as u32);
        proof { lemma_rect_bytes_roundtrip(self); }
        b
    }

    /// Parse a 16-byte rectangle block.
    pub fn from_bytes(b: &[u8; 16]) -> (r: Self)
        ensures
            r == rect_at(b@, 0),
    {
        Self {
            left: read_u32_le(b, 0) as i32,
            top: read_u32_le(b, 4) as i32,
            right: read_u32_le(b, 8) as i32,
            bottom: read_u32_le(b, 12) as i32,
        }
    }
}

proof fn lemma_i32_u32_roundtrip(v: i32)
    ensures
        (v as u32) as i32 == v,
{
    assert((v as u32) as i32 == v) by (bit_vector);
}

proof fn lemma_u32_i32_roundtrip(v: u32)
    ensures
        (v as i32) as u32 == v,
{
    assert((v as i32) as u32 == v) by (bit_vector);
}

/// The byte image of the rectangle read from any 16 bytes is those bytes.
pub proof fn law_rect_bytes_from_bytes(b: Seq<u8>)
    requires
        b.len() == 16,
    ensures
        rect_bytes(rect_at(b, 0)) == b,
{
    let r = rect_at(b, 0);
    lemma_u32_i32_roundtrip(le_u32(b, 0));
    lemma_u32_i32_roundtrip(le_u32(b, 4));
    lemma_u32_i32_roundtrip(le_u32(b, 8));
    lemma_u32_i32_roundtrip(le_u32(b, 12));
    let z = Seq::new(16, |i: int| 0u8);
    let s1 = put_u32(z, 0, r.left as u32);
    let s2 = put_u32(s1, 4, r.top as u32);
    let s3 = put_u32(s2, 8, r.right as u32);
    let s4 = put_u32(s3, 12, r.bottom as u32);
    lemma_put_u32_same(b, 0);
    lemma_put_u32_same(b, 4);
    lemma_put_u32_same(b, 8);
    lemma_put_u32_same(b, 12);
    assert forall|i: int| 0 <= i < 16 implies #[trigger] s4[i] == b[i] by {
        if i < 4 {
            assert(put_u32(b, 0, le_u32(b, 0))[i] == b[i]);
        } else if i < 8 {
            assert(put_u32(b, 4, le_u32(b, 4))[i] == b[i]);
        } else if i < 12 {
            assert(put_u32(b, 8, le_u32(b, 8))[i] == b[i]);
        } else {
            assert(put_u32(b, 12, le_u32(b, 12))[i] == b[i]);
        }
    }
    assert(s4 =~= b);
}

/// Reading back the byte image of a rectangle gives the rectangle.
pub proof fn lemma_rect_bytes_roundtrip(r: Rect)
    ensures
        rect_at(rect_bytes(r), 0) == r,
        rect_bytes(r).len() == 16,
{
    let z = Seq::new(16, |i: int| 0u8);
    let s1 = put_u32(z, 0, r.left as u32);
    let s2 = put_u32(s1, 4, r.top as u32);
    let s3 = put_u32(s2, 8, r.right as u32);
    let s4 = put_u32(s3, 12, r.bottom as u32);
    lemma_le_u32_put(z, 0, r.left as u32);
    lemma_le_u32_put(s1, 4, r.top as u32);
    lemma_le_u32_put(s2, 8, r.right as u32);
    lemma_le_u32_put(s3, 12, r.bottom as u32);
    assert(le_u32(s4, 0) == le_u32(s1, 0));
    assert(le_u32(s4, 4) == le_u32(s2, 4));
    assert(le_u32(s4, 8) == le_u32(s3, 8));
    lemma_i32_u32_roundtrip(r.left);
    lemma_i32_u32_roundtrip(r.top);
    lemma_i32_u32_roundtrip(r.right);
    lemma_i32_u32_roundtrip(r.bottom);
}

/// Clip `rect` against `clip` (see [`spec_block_clip`]).
pub fn block_clip(clip: Rect, rect: Rect) -> (res: BlockClipResult)
    ensures
        res == spec_block_clip(clip, rect),
{
    let mut rect = rect;
    let left = rect.left;
    let right = rect.right;
    if left >= clip.right || right < clip.left {
        return BlockClipResult { draw: false, rect };
    }
    if left < clip.left {
        rect.left = clip.left;
    }
    if right > clip.right {
        rect.right = clip.right;
    }
    let top = rect.top;
    let bottom = rect.bottom;
    if top >= clip.bottom || bottom < clip.top {
        return BlockClipResult { draw: false, rect };
    }
    if top < clip.top {
        rect.top = clip.top;
    }
    if bottom > clip.bottom {
        rect.bottom = clip.bottom;
    }
    BlockClipResult { draw: true, rect }
}

/// Register-flow transcription of `block_clip` (separate compare per jump).
pub fn fasm_oracle_block_clip(clip: Rect, rect: Rect) -> (res: BlockClipResult)
    ensures
        res == spec_block_clip(clip, rect),
{
    let mut rect = rect;
    let eax = rect.left;
    let ebx = rect.right;
    let ecx = clip.left;
    let edx = clip.right;
    if eax >= edx {
        return BlockClipResult { draw: false, rect };
    }
    if ebx < ecx {
        return BlockClipResult { draw: false, rect };
    }
    if eax < ecx {
        rect.left = ecx;
    }
    if ebx > edx {
        rect.right = edx;
    }
    let eax = rect.top;
    let ebx = rect.bottom;
    let ecx = clip.top;
    let edx = clip.bottom;
    if eax >= edx {
        return BlockClipResult { draw: false, rect };
    }
    if ebx < ecx {
        return BlockClipResult { draw: false, rect };
    }
    if eax < ecx {
        rect.top = ecx;
    }
    if ebx > edx {
        rect.bottom = edx;
    }
    BlockClipResult { draw: true, rect }
}

/// In-place clip of a rectangle held as 16 bytes; returns `0` draw, `1` reject.
pub fn block_clip_bytes(clip: &[u8; 16], rect: &mut [u8; 16]) -> (code: u32)
    ensures
        code == (if spec_block_clip(rect_at(clip@, 0), rect_at(old(rect)@, 0)).draw { 0u32 } else { 1u32 }),
        final(rect)@ == rect_bytes(spec_block_clip(rect_at(clip@, 0), rect_at(old(rect)@, 0)).rect),
{
    let r = block_clip(Rect::from_bytes(clip), Rect::from_bytes(rect));
    *rect = r.rect.to_bytes();
    if r.draw { 0 } else { 1 }
}

/// A rectangle that overlaps the clip on both axes (its left edge before the
/// clip's right edge, its right edge at or after the clip's left edge, and
/// likewise vertically) is drawn, as its intersection with the clip; one that
/// does not is not drawn, and comes back unchanged when it misses
/// horizontally, or with only its horizontal edges clipped when it misses
/// vertically.
pub proof fn law_block_clip_overlap(clip: Rect, rect: Rect)
    ensures
        (rect.left < clip.right && rect.right >= clip.left && rect.top < clip.bottom && rect.bottom >= clip.top)
            ==> spec_block_clip(clip, rect) == (BlockClipResult {
            draw: true,
            rect: Rect {
                left: if rect.left >= clip.left { rect.left } else { clip.left },
                top: if rect.top >= clip.top { rect.top } else { clip.top },
                right: if rect.right <= clip.right { rect.right } else { clip.right },
                bottom: if rect.bottom <= clip.bottom { rect.bottom } else { clip.bottom },
            },
        }),
        !(rect.left < clip.right && rect.right >= clip.left && rect.top < clip.bottom && rect.bottom >= clip.top)
            ==> !spec_block_clip(clip, rect).draw,
        !(rect.left < clip.right && rect.right >= clip.left) ==> spec_block_clip(clip, rect).rect == rect,
        (rect.left < clip.right && rect.right >= clip.left && !(rect.top < clip.bottom && rect.bottom >= clip.top))
            ==> spec_block_clip(clip, rect).rect == (Rect {
            left: if rect.left >= clip.left { rect.left } else { clip.left },
            right: if rect.right <= clip.right { rect.right } else { clip.right },
            ..rect
        }),
{
}

/// A drawn rectangle lies within the clip.
pub proof fn law_block_clip_inside(clip: Rect, rect: Rect)
    requires
        spec_block_clip(clip, rect).draw,
    ensures
        clip.left <= spec_block_clip(clip, rect).rect.left,
        spec_block_clip(clip, rect).rect.right <= clip.right,
        clip.top <= spec_block_clip(clip, rect).rect.top,
        spec_block_clip(clip, rect).rect.bottom <= clip.bottom,
{
}

/// Against a non-degenerate clip, clipping a drawn result again draws it unchanged.
pub proof fn law_block_clip_idempotent(clip: Rect, rect: Rect)
    requires
        clip.left < clip.right,
        clip.top < clip.bottom,
        spec_block_clip(clip, rect).draw,
    ensures
        spec_block_clip(clip, spec_block_clip(clip, rect).rect)
            == spec_block_clip(clip, rect),
{
}

/// A rectangle already inside the clip (with `left < clip.right` and
/// `top < clip.bottom`) is drawn unchanged.
pub proof fn law_block_clip_inside_unchanged(clip: Rect, rect: Rect)
    requires
        clip.left <= rect.left < clip.right,
        clip.left <= rect.right <= clip.right,
        clip.top <= rect.top < clip.bottom,
        clip.top <= rect.bottom <= clip.bottom,
    ensures
        spec_block_clip(clip, rect) == (BlockClipResult { draw: true, rect }),
{
}

/// `blit_clip`: clip the source span against `sc`, remap the clipped span to
/// destination coordinates, clip that against `dc`, and on success write back
/// width, height and both origins; a reject leaves the geometry unchanged.
/// All coordinate arithmetic wraps at 32 bits.
pub open spec fn spec_blit_clip(b: BlitterGeom) -> BlitClipResult {
    let src0 = b.src_x;
    let sy0 = b.src_y;
    let s = spec_block_clip(b.sc, Rect {
        left: src0, top: sy0, right: src0.wrapping_add(b.w), bottom: sy0.wrapping_add(b.h),
    });
    if !s.draw {
        BlitClipResult { draw: false, geom: b }
    } else {
        let dx0 = b.dst_x.wrapping_add(s.rect.left).wrapping_sub(src0);
        let dy0 = b.dst_y.wrapping_add(s.rect.top).wrapping_sub(sy0);
        let dx1 = dx0.wrapping_sub(s.rect.left).wrapping_add(s.rect.right);
        let dy1 = dy0.wrapping_sub(s.rect.top).wrapping_add(s.rect.bottom);
        let d = spec_block_clip(b.dc, Rect { left: dx0, top: dy0, right: dx1, bottom: dy1 });
        if !d.draw {
            BlitClipResult { draw: false, geom: b }
        } else {
            BlitClipResult {
                draw: true,
                geom: BlitterGeom {
                    w: d.rect.right.wrapping_sub(d.rect.left),
                    h: d.rect.bottom.wrapping_sub(d.rect.top),
                    src_x: src0.wrapping_add(d.rect.left).wrapping_sub(b.dst_x),
                    src_y: sy0.wrapping_add(d.rect.top).wrapping_sub(b.dst_y),
                    dst_x: d.rect.left,
                    dst_y: d.rect.top,
                    ..b
                },
            }
        }
    }
}

/// Wrapping `a - ((s + a) - d)` is `d - s`.
proof fn lemma_offset_kept(a: i32, s: i32, d: i32)
    ensures
        a.wrapping_sub(s.wrapping_add(a).wrapping_sub(d)) == d.wrapping_sub(s),
{
    let x = s.wrapping_add(a);
    let y = x.wrapping_sub(d);
    assert(x as int == s + a || x as int == s + a - 0x1_0000_0000 || x as int == s + a + 0x1_0000_0000);
    assert(y as int - (x - d) == 0 || y as int - (x - d) == 0x1_0000_0000 || y as int - (x - d) == -0x1_0000_0000);
}

/// `blit_clip` never changes the clip rectangles; a reject leaves the whole
/// geometry as it was; a drawn result has passed the source clip and keeps
/// the offset between destination and source origins.
pub proof fn law_blit_clip_keeps_offset(b: BlitterGeom)
    ensures
        spec_blit_clip(b).geom.dc == b.dc,
        spec_blit_clip(b).geom.sc == b.sc,
        !spec_blit_clip(b).draw ==> spec_blit_clip(b).geom == b,
        spec_blit_clip(b).draw ==> spec_block_clip(b.sc, Rect {
            left: b.src_x,
            top: b.src_y,
            right: b.src_x.wrapping_add(b.w),
            bottom: b.src_y.wrapping_add(b.h),
        }).draw,
        spec_blit_clip(b).draw ==> spec_blit_clip(b).geom.dst_x.wrapping_sub(spec_blit_clip(b).geom.src_x)
            == b.dst_x.wrapping_sub(b.src_x),
        spec_blit_clip(b).draw ==> spec_blit_clip(b).geom.dst_y.wrapping_sub(spec_blit_clip(b).geom.src_y)
            == b.dst_y.wrapping_sub(b.src_y),
{
    let r = spec_blit_clip(b);
    if r.draw {
        lemma_offset_kept(r.geom.dst_x, b.src_x, b.dst_x);
        lemma_offset_kept(r.geom.dst_y, b.src_y, b.dst_y);
    }
}

impl BlitterGeom {
    pub fn new(dc: Rect, sc: Rect, dst_x: i32, dst_y: i32, src_x: i32, src_y: i32, w: i32, h: i32) -> (r: Self)
        ensures
            r == (BlitterGeom { dc, sc, dst_x, dst_y, src_x, src_y, w, h }),
    {
        Self { dc, sc, dst_x, dst_y, src_x, src_y, w, h }
    }

    /// Pack the geometry into the first 56 bytes of a zeroed 64-byte `BLITTER`.
    pub fn to_bytes(self) -> (b: [u8; 64])
        ensures
            blitter_geom_at(b@) == self,
            forall|i: int| 56 <= i < 64 ==> b@[i] == 0u8,
    {
        let mut b = [0u8; 64];
        let dc = self.dc.to_bytes();
        let sc = self.sc.to_bytes();
        let mut i: usize = 0;
        while i < 16
            invariant
                i <= 16,
                forall|k: int| 0 <= k < i ==> b@[k] == dc@[k] && b@[16 + k] == sc@[k],
                forall|k: int| 32 <= k < 64 ==> b@[k] == 0u8,
            decreases 16 - i,
        {
            b[i] = dc[i];
            b[16 + i] = sc[i];
            i = i + 1;
        }
        let ghost b0 = b@;
        proof {
            assert(rect_at(b0, 0) == rect_at(dc@, 0));
            assert(rect_at(b0, 16) == rect_at(sc@, 0));
        }
        write_u32_le_arr(&mut b, BLITTER_OFF_DST_X, self.dst_x as u32);
        let ghost b1 = b@;
        write_u32_le_arr(&mut b, BLITTER_OFF_DST_Y, self.dst_y as u32);
        let ghost b2 = b@;
        write_u32_le_arr(&mut b, BLITTER_OFF_SRC_X, self.src_x as u32);
        let ghost b3 = b@;
        write_u32_le_arr(&mut b, BLITTER_OFF_SRC_Y, self.src_y as u32);
        let ghost b4 = b@;
        write_u32_le_arr(&mut b, BLITTER_OFF_W, self.w as u32);
        let ghost b5 = b@;
        write_u32_le_arr(&mut b, BLITTER_OFF_H, self.h as u32);
        proof {
            lemma_geom_writes(b0, b@, self);
        }
        b
    }

    /// Parse the geometry fields of a 64-byte `BLITTER`.
    pub fn from_bytes(b: &[u8; 64]) -> (r: Self)
        ensures
            r == blitter_geom_at(b@),
    {
        let mut dc_b = [0u8; 16];
        let mut sc_b = [0u8; 16];
        let mut i: usize = 0;
        while i < 16
            invariant
                i <= 16,
                forall|k: int| 0 <= k < i ==> dc_b@[k] == b@[k] && sc_b@[k] == b@[16 + k],
            decreases 16 - i,
        {
            dc_b[i] = b[i];
            sc_b[i] = b[16 + i];
            i = i + 1;
        }
        assert(rect_at(dc_b@, 0) == rect_at(b@, 0));
        assert(rect_at(sc_b@, 0) == rect_at(b@, 16));
        Self {
            dc: Rect::from_bytes(&dc_b),
            sc: Rect::from_bytes(&sc_b),
            dst_x: read_u32_le(b, BLITTER_OFF_DST_X) as i32,
            dst_y: read_u32_le(b, BLITTER_OFF_DST_Y) as i32,
            src_x: read_u32_le(b, BLITTER_OFF_SRC_X) as i32,
            src_y: read_u32_le(b, BLITTER_OFF_SRC_Y) as i32,
            w: read_u32_le(b, BLITTER_OFF_W) as i32,
            h: read_u32_le(b, BLITTER_OFF_H) as i32,
        }
    }
}

proof fn lemma_rect_at_preserved(a: Seq<u8>, b: Seq<u8>, off: int)
    requires
        0 <= off,
        off + 16 <= a.len(),
        a.len() == b.len(),
        forall|i: int| off <= i < off + 16 ==> a[i] == b[i],
    ensures
        rect_at(a, off) == rect_at(b, off),
{
}

proof fn lemma_geom_writes(b0: Seq<u8>, b: Seq<u8>, g: BlitterGeom)
    requires
        b0.len() == 64,
        rect_at(b0, 0) == g.dc,
        rect_at(b0, 16) == g.sc,
        forall|k: int| 56 <= k < 64 ==> b0[k] == 0u8,
        b == put_u32(put_u32(put_u32(put_u32(put_u32(put_u32(b0, 32, g.dst_x as u32), 36, g.dst_y as u32),
            40, g.src_x as u32), 44, g.src_y as u32), 48, g.w as u32), 52, g.h as u32),
    ensures
        blitter_geom_at(b) == g,
        forall|i: int| 56 <= i < 64 ==> b[i] == 0u8,
{
    let b1 = put_u32(b0, 32, g.dst_x as u32);
    let b2 = put_u32(b1, 36, g.dst_y as u32);
    let b3 = put_u32(b2, 40, g.src_x as u32);
    let b4 = put_u32(b3, 44, g.src_y as u32);
    let b5 = put_u32(b4, 48, g.w as u32);
    lemma_le_u32_put(b0, 32, g.dst_x as u32);
    lemma_le_u32_put(b1, 36, g.dst_y as u32);
    lemma_le_u32_put(b2, 40, g.src_x as u32);
    lemma_le_u32_put(b3, 44, g.src_y as u32);
    lemma_le_u32_put(b4, 48, g.w as u32);
    lemma_le_u32_put(b5, 52, g.h as u32);
    lemma_le_u32_put_other(b5, 52, g.h as u32, 48);
    lemma_le_u32_put_other(b4, 48, g.w as u32, 44);
    lemma_le_u32_put_other(b5, 52, g.h as u32, 44);
    lemma_le_u32_put_other(b3, 44, g.src_y as u32, 40);
    lemma_le_u32_put_other(b4, 48, g.w as u32, 40);
    lemma_le_u32_put_other(b5, 52, g.h as u32, 40);
    lemma_le_u32_put_other(b2, 40, g.src_x as u32, 36);
    lemma_le_u32_put_other(b3, 44, g.src_y as u32, 36);
    lemma_le_u32_put_other(b4, 48, g.w as u32, 36);
    lemma_le_u32_put_other(b5, 52, g.h as u32, 36);
    lemma_le_u32_put_other(b1, 36, g.dst_y as u32, 32);
    lemma_le_u32_put_other(b2, 40, g.src_x as u32, 32);
    lemma_le_u32_put_other(b3, 44, g.src_y as u32, 32);
    lemma_le_u32_put_other(b4, 48, g.w as u32, 32);
    lemma_le_u32_put_other(b5, 52, g.h as u32, 32);
    assert forall|i: int| 0 <= i < 32 implies b[i] == b0[i] by {
        lemma_put_u32_other(b0, 32, g.dst_x as u32, i);
        lemma_put_u32_other(b1, 36, g.dst_y as u32, i);
        lemma_put_u32_other(b2, 40, g.src_x as u32, i);
        lemma_put_u32_other(b3, 44, g.src_y as u32, i);
        lemma_put_u32_other(b4, 48, g.w as u32, i);
        lemma_put_u32_other(b5, 52, g.h as u32, i);
    };
    assert forall|i: int| 56 <= i < 64 implies b[i] == 0u8 by {
        lemma_put_u32_other(b0, 32, g.dst_x as u32, i);
        lemma_put_u32_other(b1, 36, g.dst_y as u32, i);
        lemma_put_u32_other(b2, 40, g.src_x as u32, i);
        lemma_put_u32_other(b3, 44, g.src_y as u32, i);
        lemma_put_u32_other(b4, 48, g.w as u32, i);
        lemma_put_u32_other(b5, 52, g.h as u32, i);
    };
    lemma_rect_at_preserved(b, b0, 0);
    lemma_rect_at_preserved(b, b0, 16);
    lemma_i32_u32_roundtrip(g.dst_x);
    lemma_i32_u32_roundtrip(g.dst_y);
    lemma_i32_u32_roundtrip(g.src_x);
    lemma_i32_u32_roundtrip(g.src_y);
    lemma_i32_u32_roundtrip(g.w);
    lemma_i32_u32_roundtrip(g.h);
}

/// The geometry stored in a `BLITTER` byte image.
pub open spec fn blitter_geom_at(b: Seq<u8>) -> BlitterGeom {
    BlitterGeom {
        dc: rect_at(b, 0),
        sc: rect_at(b, 16),
        dst_x: le_u32(b, 32) as i32,
        dst_y: le_u32(b, 36) as i32,
        src_x: le_u32(b, 40) as i32,
        src_y: le_u32(b, 44) as i32,
        w: le_u32(b, 48) as i32,
        h: le_u32(b, 52) as i32,
    }
}

/// Compose the source and destination clips of a blitter (see [`spec_blit_clip`]).
pub fn blit_clip(b: BlitterGeom) -> (res: BlitClipResult)
    ensures
        res == spec_blit_clip(b),
{
    let mut b = b;
    let src0 = b.src_x;
    let sy0 = b.src_y;
    let src_rect = Rect::new(src0, sy0, src0.wrapping_add(b.w), sy0.wrapping_add(b.h));
    let src_clipped = block_clip(b.sc, src_rect);
    if !src_clipped.draw {
        return BlitClipResult { draw: false, geom: b };
    }
    let sx0 = src_clipped.rect.left;
    let sy0c = src_clipped.rect.top;
    let sx1 = src_clipped.rect.right;
    let sy1 = src_clipped.rect.bottom;
    let dx0 = b.dst_x.wrapping_add(sx0).wrapping_sub(src0);
    let dy0 = b.dst_y.wrapping_add(sy0c).wrapping_sub(sy0);
    let dx1 = dx0.wrapping_sub(sx0).wrapping_add(sx1);
    let dy1 = dy0.wrapping_sub(sy0c).wrapping_add(sy1);
    let dst_rect = Rect::new(dx0, dy0, dx1, dy1);
    let dst_clipped = block_clip(b.dc, dst_rect);
    if !dst_clipped.draw {
        return BlitClipResult { draw: false, geom: b };
    }
    let dx0 = dst_clipped.rect.left;
    let dy0 = dst_clipped.rect.top;
    let dx1 = dst_clipped.rect.right;
    let dy1 = dst_clipped.rect.bottom;
    b.w = dx1.wrapping_sub(dx0);
    b.h = dy1.wrapping_sub(dy0);
    b.src_x = src0.wrapping_add(dx0).wrapping_sub(b.dst_x);
    b.src_y = sy0.wrapping_add(dy0).wrapping_sub(b.dst_y);
    b.dst_x = dx0;
    b.dst_y = dy0;
    BlitClipResult { draw: true, geom: b }
}

/// Register-flow transcription of `blit_clip` over [`fasm_oracle_block_clip`].
pub fn fasm_oracle_blit_clip(b: BlitterGeom) -> (res: BlitClipResult)
    ensures
        res == spec_blit_clip(b),
{
    let mut b = b;
    let src_x = b.src_x;
    let src_y = b.src_y;
    let mut sx0 = src_x;
    let mut sy0 = src_y;
    let mut sx1 = src_x.wrapping_add(b.w);
    let mut sy1 = src_y.wrapping_add(b.h);
    let src_r = fasm_oracle_block_clip(b.sc, Rect::new(sx0, sy0, sx1, sy1));
    if !src_r.draw {
        return BlitClipResult { draw: false, geom: b };
    }
    sx0 = src_r.rect.left;
    sy0 = src_r.rect.top;
    sx1 = src_r.rect.right;
    sy1 = src_r.rect.bottom;
    let mut dx0 = b.dst_x.wrapping_add(sx0).wrapping_sub(src_x);
    let mut dy0 = b.dst_y.wrapping_add(sy0).wrapping_sub(src_y);
    let mut dx1 = dx0.wrapping_sub(sx0).wrapping_add(sx1);
    let mut dy1 = dy0.wrapping_sub(sy0).wrapping_add(sy1);
    let dst_r = fasm_oracle_block_clip(b.dc, Rect::new(dx0, dy0, dx1, dy1));
    if !dst_r.draw {
        return BlitClipResult { draw: false, geom: b };
    }
    dx0 = dst_r.rect.left;
    dy0 = dst_r.rect.top;
    dx1 = dst_r.rect.right;
    dy1 = dst_r.rect.bottom;
    b.w = dx1.wrapping_sub(dx0);
    b.h = dy1.wrapping_sub(dy0);
    b.src_x = src_x.wrapping_add(dx0).wrapping_sub(b.dst_x);
    b.src_y = src_y.wrapping_add(dy0).wrapping_sub(b.dst_y);
    b.dst_x = dx0;
    b.dst_y = dy0;
    BlitClipResult { draw: true, geom: b }
}

/// In-place `blit_clip` on a 64-byte `BLITTER` image; returns `0` draw,
/// `1` reject. Only `dst_x/y`, `src_x/y`, `w`, `h` are rewritten, and only on draw.
pub fn blit_clip_bytes(blitter: &mut [u8; 64]) -> (code: u32)
    ensures
        code == (if spec_blit_clip(blitter_geom_at(old(blitter)@)).draw { 0u32 } else { 1u32 }),
        !spec_blit_clip(blitter_geom_at(old(blitter)@)).draw ==> final(blitter)@ == old(blitter)@,
        spec_blit_clip(blitter_geom_at(old(blitter)@)).draw ==> {
            let g = spec_blit_clip(blitter_geom_at(old(blitter)@)).geom;
            final(blitter)@ == put_u32(put_u32(put_u32(put_u32(put_u32(put_u32(old(blitter)@,
                32, g.dst_x as u32), 36, g.dst_y as u32), 40, g.src_x as u32), 44, g.src_y as u32),
                48, g.w as u32), 52, g.h as u32)
        },
{
    let r = blit_clip(BlitterGeom::from_bytes(blitter));
    if r.draw {
        let g = r.geom;
        write_u32_le_arr(blitter, BLITTER_OFF_DST_X, g.dst_x as u32);
        write_u32_le_arr(blitter, BLITTER_OFF_DST_Y, g.dst_y as u32);
        write_u32_le_arr(blitter, BLITTER_OFF_SRC_X, g.src_x as u32);
        write_u32_le_arr(blitter, BLITTER_OFF_SRC_Y, g.src_y as u32);
        write_u32_le_arr(blitter, BLITTER_OFF_W, g.w as u32);
        write_u32_le_arr(blitter, BLITTER_OFF_H, g.h as u32);
        0
    } else {
        1
    }
}

} // verus!
