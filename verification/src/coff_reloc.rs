//! COFF relocation: DIR32 and REL32 fix-ups applied in place to an image.

use vstd::prelude::*;
use crate::le::{le_u16, le_u32, put_u32, read_u16_le, read_u32_le, write_u32_le_slice};
use crate::wrap::{mod32, lemma_wadd32, lemma_wsub32};

verus! {

/// Seed of the pseudo-random relocation corpus (`'CUTY'`).
pub const FIX_COFF_RELOCS_PRNG_SEED: u32 = 0x4355_5459;

/// Size of the file header; the section headers follow it.
pub const COFF_HEADER_SIZE: usize = 20;

/// Offset of the section count (16 bits).
pub const OFF_N_SECTIONS: usize = 2;

/// Size of a section header.
pub const COFF_SECTION_SIZE: usize = 40;

/// Offset of a section's virtual address.
pub const OFF_SEC_VIRTUAL_ADDRESS: usize = 12;

/// Offset of a section's relocation table (relative to the file header).
pub const OFF_SEC_PTR_RELOC: usize = 24;

/// Offset of a section's relocation count (16 bits).
pub const OFF_SEC_NUM_RELOC: usize = 32;

/// Size of a relocation entry.
pub const COFF_RELOC_SIZE: usize = 10;

/// Offset of a relocation's address.
pub const OFF_RELOC_VA: usize = 0;

/// Offset of a relocation's symbol index.
pub const OFF_RELOC_SYM_INDEX: usize = 4;

/// Offset of a relocation's type (16 bits).
pub const OFF_RELOC_TYPE: usize = 8;

/// Size of a symbol record.
pub const COFF_SYM_SIZE: usize = 18;

/// Offset of a symbol's value.
pub const OFF_SYM_VALUE: usize = 8;

/// 32-bit absolute relocation.
pub const RELOC_TYPE_DIR32: u16 = 6;

/// 32-bit PC-relative relocation.
pub const RELOC_TYPE_REL32: u16 = 20;

/// Add `addend` (mod 2^32) to the little-endian dword at `addr`.
pub open spec fn patch_add(img: Seq<u8>, addr: u32, addend: u32) -> Seq<u8> {
    put_u32(img, addr as int, mod32(le_u32(img, addr as int) + addend))
}

/// Offset of the symbol a relocation at `r` refers to.
pub open spec fn reloc_sym(img: Seq<u8>, sym_off: int, r: int) -> int {
    sym_off + le_u32(img, r + 4) * 18
}

/// Where a relocation at `r` patches, and what it adds.
pub open spec fn reloc_target(img: Seq<u8>, sym_off: int, sec_va: u32, delta: u32, r: int) -> (u32, u32) {
    let value = le_u32(img, reloc_sym(img, sym_off, r) + 8);
    let at = mod32(le_u32(img, r) + sec_va);
    if le_u16(img, r + 8) == RELOC_TYPE_DIR32 {
        (mod32(at + delta), value)
    } else {
        (mod32(at + delta), mod32(mod32(value - at) - 4))
    }
}

/// Whether a relocation at `r` patches at all (DIR32 or REL32).
pub open spec fn reloc_applies(img: Seq<u8>, r: int) -> bool {
    le_u16(img, r + 8) == RELOC_TYPE_DIR32 || le_u16(img, r + 8) == RELOC_TYPE_REL32
}

/// The image after the relocation at `r`: DIR32 adds the symbol's value at
/// `VA + section VA + delta`; REL32 adds `value - (VA + section VA) - 4` there;
/// other types change nothing.
pub open spec fn reloc_step(img: Seq<u8>, sym_off: int, sec_va: u32, delta: u32, r: int) -> Seq<u8> {
    if reloc_applies(img, r) {
        let t = reloc_target(img, sym_off, sec_va, delta, r);
        patch_add(img, t.0, t.1)
    } else {
        img
    }
}

/// Every byte the relocation at `r` reads or writes lies in the image.
pub open spec fn reloc_ok(img: Seq<u8>, sym_off: int, sec_va: u32, delta: u32, r: int) -> bool {
    &&& 0 <= r
    &&& r + 10 <= img.len()
    &&& 0 <= sym_off
    &&& reloc_sym(img, sym_off, r) + 12 <= img.len()
    &&& reloc_applies(img, r) ==> reloc_target(img, sym_off, sec_va, delta, r).0 + 4 <= img.len()
}

/// The image after `n` relocations starting at `r`, applied in order.
pub open spec fn relocs_apply(img: Seq<u8>, sym_off: int, sec_va: u32, delta: u32, r: int, n: nat) -> Seq<u8>
    decreases n,
{
    if n == 0 {
        img
    } else {
        relocs_apply(reloc_step(img, sym_off, sec_va, delta, r), sym_off, sec_va, delta, r + 10, (n - 1) as nat)
    }
}

/// Each of the `n` relocations from `r` stays inside the image it sees.
pub open spec fn relocs_ok(img: Seq<u8>, sym_off: int, sec_va: u32, delta: u32, r: int, n: nat) -> bool
    decreases n,
{
    n == 0 || (reloc_ok(img, sym_off, sec_va, delta, r)
        && relocs_ok(reloc_step(img, sym_off, sec_va, delta, r), sym_off, sec_va, delta, r + 10, (n - 1) as nat))
}

/// The image after the section header at `sec`: its relocation table (at
/// `coff_off + PtrReloc`, `NumReloc` entries) applied with its virtual address.
pub open spec fn section_apply(img: Seq<u8>, coff_off: int, sym_off: int, delta: u32, sec: int) -> Seq<u8> {
    relocs_apply(img, sym_off, le_u32(img, sec + 12), delta, coff_off + le_u32(img, sec + 24), le_u16(img, sec + 32) as nat)
}

/// The section header at `sec` and its relocations stay inside the image.
pub open spec fn section_ok(img: Seq<u8>, coff_off: int, sym_off: int, delta: u32, sec: int) -> bool {
    &&& 0 <= sec
    &&& sec + 34 <= img.len()
    &&& relocs_ok(img, sym_off, le_u32(img, sec + 12), delta, coff_off + le_u32(img, sec + 24), le_u16(img, sec + 32) as nat)
}

/// The image after `n` sections from header `sec`, in order.
pub open spec fn sections_apply(img: Seq<u8>, coff_off: int, sym_off: int, delta: u32, sec: int, n: nat) -> Seq<u8>
    decreases n,
{
    if n == 0 {
        img
    } else {
        sections_apply(section_apply(img, coff_off, sym_off, delta, sec), coff_off, sym_off, delta, sec + 40, (n - 1) as nat)
    }
}

/// All `n` sections from `sec` stay inside the image they see.
pub open spec fn sections_ok(img: Seq<u8>, coff_off: int, sym_off: int, delta: u32, sec: int, n: nat) -> bool
    decreases n,
{
    n == 0 || (section_ok(img, coff_off, sym_off, delta, sec)
        && sections_ok(section_apply(img, coff_off, sym_off, delta, sec), coff_off, sym_off, delta, sec + 40, (n - 1) as nat))
}

/// The image after all relocations of the file whose header is at `coff_off`.
pub open spec fn coff_relocs_apply(img: Seq<u8>, coff_off: int, sym_off: int, delta: u32) -> Seq<u8> {
    sections_apply(img, coff_off, sym_off, delta, coff_off + 20, le_u16(img, coff_off + 2) as nat)
}

/// Every read and write of the relocation pass lies in the image.
pub open spec fn coff_relocs_ok(img: Seq<u8>, coff_off: int, sym_off: int, delta: u32) -> bool {
    &&& coff_off + 20 <= img.len()
    &&& sections_ok(img, coff_off, sym_off, delta, coff_off + 20, le_u16(img, coff_off + 2) as nat)
}

/// One relocation at `r` (inside the image): a DIR32 adds the symbol's value
/// to the dword at `A = VA + section VA + delta`; a REL32 adds
/// `value - (VA + section VA) - 4` there (all modulo 2^32, `delta` not
/// subtracted); every other byte is unchanged; any other type changes nothing.
pub proof fn law_reloc_step_patches(img: Seq<u8>, sym_off: int, sec_va: u32, delta: u32, r: int)
    requires
        reloc_ok(img, sym_off, sec_va, delta, r),
    ensures
        ({
            let value = le_u32(img, reloc_sym(img, sym_off, r) + 8);
            let at = mod32(le_u32(img, r) + sec_va);
            let a = mod32(at + delta) as int;
            let out = reloc_step(img, sym_off, sec_va, delta, r);
            &&& le_u16(img, r + 8) == RELOC_TYPE_DIR32 ==> le_u32(out, a) == mod32(le_u32(img, a) + value)
            &&& le_u16(img, r + 8) == RELOC_TYPE_REL32 ==> le_u32(out, a) == mod32(le_u32(img, a) + mod32(mod32(
                value - at) - 4))
            &&& reloc_applies(img, r) ==> out.len() == img.len() && forall|i: int|
                0 <= i < img.len() && (i < a || a + 4 <= i) ==> #[trigger] out[i] == img[i]
            &&& !reloc_applies(img, r) ==> out == img
        }),
{
    if reloc_applies(img, r) {
        let t = reloc_target(img, sym_off, sec_va, delta, r);
        let v = mod32(le_u32(img, t.0 as int) + t.1);
        crate::le::lemma_le_u32_put(img, t.0 as int, v);
        assert forall|i: int| 0 <= i < img.len() && (i < t.0 || t.0 + 4 <= i) implies #[trigger] reloc_step(img,
            sym_off, sec_va, delta, r)[i] == img[i] by {
            crate::le::lemma_put_u32_other(img, t.0 as int, v, i);
        }
    }
}

/// `n` relocations from `r`, none of type DIR32 or REL32, change nothing.
proof fn lemma_relocs_inert(img: Seq<u8>, sym_off: int, sec_va: u32, delta: u32, r: int, n: nat)
    requires
        forall|j: int| 0 <= j < n ==> !#[trigger] reloc_applies(img, r + 10 * j),
    ensures
        relocs_apply(img, sym_off, sec_va, delta, r, n) == img,
    decreases n,
{
    if n > 0 {
        assert(!reloc_applies(img, r + 10 * 0));
        assert forall|j: int| 0 <= j < n - 1 implies !#[trigger] reloc_applies(img, (r + 10) + 10 * j) by {
            assert(r + 10 + 10 * j == r + 10 * (j + 1));
            assert(!reloc_applies(img, r + 10 * (j + 1)));
        }
        lemma_relocs_inert(img, sym_off, sec_va, delta, r + 10, (n - 1) as nat);
    }
}

/// Whether section header `sec` has no relocation of type DIR32 or REL32.
pub open spec fn section_inert(img: Seq<u8>, coff_off: int, sec: int) -> bool {
    forall|j: int|
        0 <= j < le_u16(img, sec + 32) ==> !#[trigger] reloc_applies(img, coff_off + le_u32(img, sec + 24) + 10 * j)
}

proof fn lemma_sections_inert(img: Seq<u8>, coff_off: int, sym_off: int, delta: u32, sec: int, n: nat)
    requires
        forall|k: int| 0 <= k < n ==> #[trigger] section_inert(img, coff_off, sec + 40 * k),
    ensures
        sections_apply(img, coff_off, sym_off, delta, sec, n) == img,
    decreases n,
{
    if n > 0 {
        assert(section_inert(img, coff_off, sec + 40 * 0));
        lemma_relocs_inert(img, sym_off, le_u32(img, sec + 12), delta, coff_off + le_u32(img, sec + 24),
            le_u16(img, sec + 32) as nat);
        assert forall|k: int| 0 <= k < n - 1 implies #[trigger] section_inert(img, coff_off, (sec + 40) + 40 * k) by {
            assert(sec + 40 + 40 * k == sec + 40 * (k + 1));
            assert(section_inert(img, coff_off, sec + 40 * (k + 1)));
        }
        lemma_sections_inert(img, coff_off, sym_off, delta, sec + 40, (n - 1) as nat);
    }
}

/// An image with no DIR32 or REL32 relocation in any section (including one
/// with no sections, or no relocations) comes out unchanged.
pub proof fn law_inert_relocs_change_nothing(img: Seq<u8>, coff_off: int, sym_off: int, delta: u32)
    requires
        forall|k: int|
            0 <= k < le_u16(img, coff_off + 2) ==> #[trigger] section_inert(img, coff_off, coff_off + 20 + 40 * k),
    ensures
        coff_relocs_apply(img, coff_off, sym_off, delta) == img,
{
    lemma_sections_inert(img, coff_off, sym_off, delta, coff_off + 20, le_u16(img, coff_off + 2) as nat);
}

/// The relocations of the section header at `sec`, in table order: each
/// entry's offset with the section's virtual address.
pub open spec fn section_relocs(img: Seq<u8>, coff_off: int, sec: int) -> Seq<(int, u32)> {
    Seq::new(le_u16(img, sec + 32) as nat, |j: int| (coff_off + le_u32(img, sec + 24) + 10 * j, le_u32(img, sec + 12)))
}

/// The relocations of `n` sections from header `sec`, in pass order.
pub open spec fn sections_relocs(img: Seq<u8>, coff_off: int, sec: int, n: nat) -> Seq<(int, u32)>
    decreases n,
{
    if n == 0 {
        Seq::empty()
    } else {
        section_relocs(img, coff_off, sec) + sections_relocs(img, coff_off, sec + 40, (n - 1) as nat)
    }
}

/// Every relocation of the file whose header is at `coff_off`, in pass order.
pub open spec fn coff_reloc_list(img: Seq<u8>, coff_off: int) -> Seq<(int, u32)> {
    sections_relocs(img, coff_off, coff_off + 20, le_u16(img, coff_off + 2) as nat)
}

/// The relocations of `l` applied in order.
pub open spec fn list_apply(img: Seq<u8>, sym_off: int, delta: u32, l: Seq<(int, u32)>) -> Seq<u8>
    decreases l.len(),
{
    if l.len() == 0 {
        img
    } else {
        list_apply(reloc_step(img, sym_off, l[0].1, delta, l[0].0), sym_off, delta, l.drop_first())
    }
}

/// Where relocation `e` patches.
pub open spec fn slot_at(img: Seq<u8>, sym_off: int, delta: u32, e: (int, u32)) -> int {
    reloc_target(img, sym_off, e.1, delta, e.0).0 as int
}

/// What relocation `e` adds.
pub open spec fn addend_of(img: Seq<u8>, sym_off: int, delta: u32, e: (int, u32)) -> u32 {
    reloc_target(img, sym_off, e.1, delta, e.0).1
}

/// The byte ranges `[a, a + m)` and `[b, b + n)` do not overlap.
pub open spec fn apart(a: int, m: int, b: int, n: int) -> bool {
    a + m <= b || b + n <= a
}

/// The dwords that the relocations of `l` patch are pairwise disjoint, and
/// none overlaps a relocation entry of `l`, a symbol value one of them reads,
/// or the bytes `lo .. hi`.
pub open spec fn slots_disjoint(img: Seq<u8>, sym_off: int, delta: u32, l: Seq<(int, u32)>, lo: int, hi: int) -> bool {
    &&& forall|t: int, u: int|
        #![trigger l[t], l[u]]
        0 <= t < l.len() && 0 <= u < l.len() && t != u && reloc_applies(img, l[t].0) && reloc_applies(img, l[u].0)
            ==> apart(slot_at(img, sym_off, delta, l[t]), 4, slot_at(img, sym_off, delta, l[u]), 4)
    &&& forall|t: int, u: int|
        #![trigger l[t], l[u]]
        0 <= t < l.len() && 0 <= u < l.len() && reloc_applies(img, l[t].0) ==> {
            &&& apart(slot_at(img, sym_off, delta, l[t]), 4, l[u].0, 10)
            &&& apart(slot_at(img, sym_off, delta, l[t]), 4, reloc_sym(img, sym_off, l[u].0) + 8, 4)
        }
    &&& forall|t: int|
        0 <= t < l.len() && reloc_applies(img, #[trigger] l[t].0) ==> apart(slot_at(img, sym_off, delta, l[t]), 4, lo, hi - lo)
}

/// Every relocation of `l` stays inside `img`.
pub open spec fn all_relocs_ok(img: Seq<u8>, sym_off: int, delta: u32, l: Seq<(int, u32)>) -> bool {
    forall|u: int| 0 <= u < l.len() ==> reloc_ok(img, sym_off, (#[trigger] l[u]).1, delta, l[u].0)
}

/// `c` holds the bytes of `img` that relocation `e` reads.
pub open spec fn agrees_on_reads(c: Seq<u8>, img: Seq<u8>, sym_off: int, e: (int, u32)) -> bool {
    &&& forall|i: int| e.0 <= i < e.0 + 10 ==> #[trigger] c[i] == img[i]
    &&& forall|i: int| reloc_sym(img, sym_off, e.0) + 8 <= i < reloc_sym(img, sym_off, e.0) + 12 ==> #[trigger] c[i] == img[i]
}

/// Byte `i` lies in none of the dwords that `l[a..b]` patches.
pub open spec fn unpatched(img: Seq<u8>, sym_off: int, delta: u32, l: Seq<(int, u32)>, a: int, b: int, i: int) -> bool {
    forall|t: int|
        a <= t < b && reloc_applies(img, #[trigger] l[t].0) ==> !(slot_at(img, sym_off, delta, l[t]) <= i < slot_at(
            img, sym_off, delta, l[t]) + 4)
}

/// A relocation reads the same in `c` as in `img` when `c` holds the bytes it reads.
proof fn lemma_step_same(c: Seq<u8>, img: Seq<u8>, sym_off: int, delta: u32, e: (int, u32))
    requires
        c.len() == img.len(),
        reloc_ok(img, sym_off, e.1, delta, e.0),
        agrees_on_reads(c, img, sym_off, e),
    ensures
        reloc_applies(c, e.0) == reloc_applies(img, e.0),
        reloc_step(c, sym_off, e.1, delta, e.0) == (if reloc_applies(img, e.0) {
            patch_add(c, slot_at(img, sym_off, delta, e) as u32, addend_of(img, sym_off, delta, e))
        } else {
            c
        }),
{
    let r = e.0;
    assert(c[r + 4] == img[r + 4] && c[r + 5] == img[r + 5] && c[r + 6] == img[r + 6] && c[r + 7] == img[r + 7]);
    assert(le_u32(c, r + 4) == le_u32(img, r + 4));
    let v = reloc_sym(img, sym_off, r) + 8;
    assert(reloc_sym(c, sym_off, r) == reloc_sym(img, sym_off, r));
    assert(c[v] == img[v] && c[v + 1] == img[v + 1] && c[v + 2] == img[v + 2] && c[v + 3] == img[v + 3]);
    assert(le_u32(c, v) == le_u32(img, v));
    assert(c[r] == img[r] && c[r + 1] == img[r + 1] && c[r + 2] == img[r + 2] && c[r + 3] == img[r + 3]);
    assert(le_u32(c, r) == le_u32(img, r));
    assert(c[r + 8] == img[r + 8] && c[r + 9] == img[r + 9]);
    assert(le_u16(c, r + 8) == le_u16(img, r + 8));
    assert(reloc_target(c, sym_off, e.1, delta, r) == reloc_target(img, sym_off, e.1, delta, r));
}

/// Four equal bytes read as the same dword.
proof fn lemma_le_u32_same_bytes(x: Seq<u8>, y: Seq<u8>, p: int)
    requires
        x[p] == y[p],
        x[p + 1] == y[p + 1],
        x[p + 2] == y[p + 2],
        x[p + 3] == y[p + 3],
    ensures
        le_u32(x, p) == le_u32(y, p),
{
}

#[verifier::rlimit(60)]
proof fn lemma_window(c: Seq<u8>, img: Seq<u8>, sym_off: int, delta: u32, l: Seq<(int, u32)>, a: int, b: int, lo: int, hi: int)
    requires
        0 <= a <= b <= l.len(),
        c.len() == img.len(),
        all_relocs_ok(img, sym_off, delta, l),
        slots_disjoint(img, sym_off, delta, l, lo, hi),
        forall|u: int| a <= u < b ==> agrees_on_reads(c, img, sym_off, #[trigger] l[u]),
    ensures
        list_apply(c, sym_off, delta, l.subrange(a, b)).len() == c.len(),
        forall|t: int|
            a <= t < b && reloc_applies(img, #[trigger] l[t].0) ==> le_u32(list_apply(c, sym_off, delta, l.subrange(a, b)),
                slot_at(img, sym_off, delta, l[t])) == mod32(le_u32(c, slot_at(img, sym_off, delta, l[t])) + addend_of(
                img, sym_off, delta, l[t])),
        forall|i: int|
            0 <= i < c.len() && unpatched(img, sym_off, delta, l, a, b, i) ==> #[trigger] list_apply(c, sym_off, delta,
                l.subrange(a, b))[i] == c[i],
    decreases b - a,
{
    let sub = l.subrange(a, b);
    if a < b {
        let e = l[a];
        assert(sub[0] == e);
        assert(sub.drop_first() =~= l.subrange(a + 1, b));
        assert(reloc_ok(img, sym_off, e.1, delta, e.0));
        lemma_step_same(c, img, sym_off, delta, e);
        let c1 = reloc_step(c, sym_off, e.1, delta, e.0);
        let s0 = slot_at(img, sym_off, delta, e);
        let applies = reloc_applies(img, e.0);
        if applies {
            crate::le::lemma_le_u32_put(c, s0, mod32(le_u32(c, s0) + addend_of(img, sym_off, delta, e)));
        }
        assert(c1.len() == c.len());
        assert forall|i: int| 0 <= i < c.len() && (!applies || i < s0 || s0 + 4 <= i) implies c1[i] == c[i] by {
            if applies {
                crate::le::lemma_put_u32_other(c, s0, mod32(le_u32(c, s0) + addend_of(img, sym_off, delta, e)), i);
            }
        }
        assert forall|u: int| a + 1 <= u < b implies agrees_on_reads(c1, img, sym_off, #[trigger] l[u]) by {
            assert(agrees_on_reads(c, img, sym_off, l[u]));
            assert(reloc_ok(img, sym_off, l[u].1, delta, l[u].0));
            if applies {
                assert(apart(s0, 4, l[u].0, 10));
                assert(apart(s0, 4, reloc_sym(img, sym_off, l[u].0) + 8, 4));
            }
        }
        lemma_window(c1, img, sym_off, delta, l, a + 1, b, lo, hi);
        let out = list_apply(c, sym_off, delta, sub);
        assert(out == list_apply(c1, sym_off, delta, l.subrange(a + 1, b)));
        assert forall|t: int|
            a <= t < b && reloc_applies(img, #[trigger] l[t].0) implies le_u32(out, slot_at(img, sym_off, delta, l[t]))
                == mod32(le_u32(c, slot_at(img, sym_off, delta, l[t])) + addend_of(img, sym_off, delta, l[t])) by {
            let st = slot_at(img, sym_off, delta, l[t]);
            assert(reloc_ok(img, sym_off, l[t].1, delta, l[t].0));
            if t == a {
                assert forall|k: int| 0 <= k < 4 implies #[trigger] out[s0 + k] == c1[s0 + k] by {
                    assert(unpatched(img, sym_off, delta, l, a + 1, b, s0 + k)) by {
                        assert forall|w: int| a + 1 <= w < b && reloc_applies(img, #[trigger] l[w].0) implies !(slot_at(
                            img, sym_off, delta, l[w]) <= s0 + k < slot_at(img, sym_off, delta, l[w]) + 4) by {
                            assert(apart(s0, 4, slot_at(img, sym_off, delta, l[w]), 4));
                        }
                    }
                }
                lemma_le_u32_same_bytes(out, c1, s0);
            } else {
                if applies {
                    assert(apart(s0, 4, st, 4));
                    crate::le::lemma_le_u32_put_other(c, s0, mod32(le_u32(c, s0) + addend_of(img, sym_off, delta, e)), st);
                }
                assert(le_u32(c1, st) == le_u32(c, st));
            }
        }
        assert forall|i: int| 0 <= i < c.len() && unpatched(img, sym_off, delta, l, a, b, i) implies #[trigger] out[i]
            == c[i] by {
            assert(unpatched(img, sym_off, delta, l, a + 1, b, i)) by {
                assert forall|w: int| a + 1 <= w < b && reloc_applies(img, #[trigger] l[w].0) implies !(slot_at(
                    img, sym_off, delta, l[w]) <= i < slot_at(img, sym_off, delta, l[w]) + 4) by {
                    assert(a <= w < b);
                }
            }
            if applies {
                assert(a <= a < b && reloc_applies(img, l[a].0));
            }
        }
    } else {
        assert(sub.len() == 0);
    }
}

proof fn lemma_relocs_as_list(c: Seq<u8>, sym_off: int, va: u32, delta: u32, r: int, n: nat)
    ensures
        relocs_apply(c, sym_off, va, delta, r, n) == list_apply(c, sym_off, delta, Seq::new(n, |j: int| (r + 10 * j, va))),
    decreases n,
{
    let l = Seq::new(n, |j: int| (r + 10 * j, va));
    if n > 0 {
        assert(l[0] == (r, va));
        assert(l.drop_first() =~= Seq::new((n - 1) as nat, |j: int| ((r + 10) + 10 * j, va)));
        lemma_relocs_as_list(reloc_step(c, sym_off, va, delta, r), sym_off, va, delta, r + 10, (n - 1) as nat);
    }
}

proof fn lemma_list_concat(c: Seq<u8>, sym_off: int, delta: u32, x: Seq<(int, u32)>, y: Seq<(int, u32)>)
    ensures
        list_apply(c, sym_off, delta, x + y) == list_apply(list_apply(c, sym_off, delta, x), sym_off, delta, y),
    decreases x.len(),
{
    if x.len() > 0 {
        assert((x + y)[0] == x[0]);
        assert((x + y).drop_first() =~= x.drop_first() + y);
        lemma_list_concat(reloc_step(c, sym_off, x[0].1, delta, x[0].0), sym_off, delta, x.drop_first(), y);
    } else {
        assert(x + y =~= y);
    }
}

#[verifier::rlimit(60)]
proof fn lemma_sections_window(
    c: Seq<u8>,
    img: Seq<u8>,
    coff_off: int,
    sym_off: int,
    delta: u32,
    l: Seq<(int, u32)>,
    a: int,
    sec: int,
    n: nat,
    lo: int,
    hi: int,
)
    requires
        c.len() == img.len(),
        0 <= a,
        a + sections_relocs(img, coff_off, sec, n).len() <= l.len(),
        sections_relocs(img, coff_off, sec, n) == l.subrange(a, a + sections_relocs(img, coff_off, sec, n).len()),
        all_relocs_ok(img, sym_off, delta, l),
        slots_disjoint(img, sym_off, delta, l, lo, hi),
        forall|u: int| a <= u < l.len() ==> agrees_on_reads(c, img, sym_off, #[trigger] l[u]),
        forall|i: int| lo <= i < hi ==> #[trigger] c[i] == img[i],
        0 <= lo <= sec,
        hi <= img.len(),
        sec + 40 * n <= hi,
    ensures
        sections_apply(c, coff_off, sym_off, delta, sec, n) == list_apply(c, sym_off, delta, sections_relocs(img, coff_off, sec, n)),
    decreases n,
{
    if n > 0 {
        let x = section_relocs(img, coff_off, sec);
        let y = sections_relocs(img, coff_off, sec + 40, (n - 1) as nat);
        let m = x.len() as int;
        let all = sections_relocs(img, coff_off, sec, n);
        assert(all == x + y);
        assert(x =~= l.subrange(a, a + m)) by {
            assert forall|j: int| 0 <= j < m implies x[j] == l.subrange(a, a + m)[j] by {
                assert(all[j] == x[j]);
                assert(all[j] == l[a + j]);
            }
        }
        assert(y =~= l.subrange(a + m, a + m + y.len())) by {
            assert forall|j: int| 0 <= j < y.len() implies y[j] == l.subrange(a + m, a + m + y.len())[j] by {
                assert(all[m + j] == y[j]);
                assert(all[m + j] == l[a + m + j]);
            }
        }
        assert(40 * n == 40 * (n - 1) + 40);
        assert(c[sec + 12] == img[sec + 12] && c[sec + 13] == img[sec + 13] && c[sec + 14] == img[sec + 14] && c[sec + 15] == img[sec + 15]);
        assert(c[sec + 24] == img[sec + 24] && c[sec + 25] == img[sec + 25] && c[sec + 26] == img[sec + 26] && c[sec + 27] == img[sec + 27]);
        assert(c[sec + 32] == img[sec + 32] && c[sec + 33] == img[sec + 33]);
        lemma_le_u32_same_bytes(c, img, sec + 12);
        lemma_le_u32_same_bytes(c, img, sec + 24);
        assert(le_u16(c, sec + 32) == le_u16(img, sec + 32));
        lemma_relocs_as_list(c, sym_off, le_u32(img, sec + 12), delta, coff_off + le_u32(img, sec + 24), le_u16(img, sec + 32) as nat);
        assert(Seq::new(le_u16(img, sec + 32) as nat, |j: int| ((coff_off + le_u32(img, sec + 24)) + 10 * j, le_u32(img, sec + 12))) =~= x);
        let c2 = section_apply(c, coff_off, sym_off, delta, sec);
        assert(c2 == list_apply(c, sym_off, delta, x));
        lemma_window(c, img, sym_off, delta, l, a, a + m, lo, hi);
        assert forall|i: int| lo <= i < hi implies #[trigger] c2[i] == img[i] by {
            assert(c[i] == img[i]);
            assert(unpatched(img, sym_off, delta, l, a, a + m, i)) by {
                assert forall|t: int| a <= t < a + m && reloc_applies(img, #[trigger] l[t].0) implies !(slot_at(
                    img, sym_off, delta, l[t]) <= i < slot_at(img, sym_off, delta, l[t]) + 4) by {
                    assert(apart(slot_at(img, sym_off, delta, l[t]), 4, lo, hi - lo));
                }
            }
        }
        assert forall|u: int| a + m <= u < l.len() implies agrees_on_reads(c2, img, sym_off, #[trigger] l[u]) by {
            assert(agrees_on_reads(c, img, sym_off, l[u]));
            assert(reloc_ok(img, sym_off, l[u].1, delta, l[u].0));
            assert forall|i: int| l[u].0 <= i < l[u].0 + 10 implies #[trigger] c2[i] == img[i] by {
                assert(c[i] == img[i]);
                assert(unpatched(img, sym_off, delta, l, a, a + m, i)) by {
                    assert forall|t: int| a <= t < a + m && reloc_applies(img, #[trigger] l[t].0) implies !(slot_at(
                        img, sym_off, delta, l[t]) <= i < slot_at(img, sym_off, delta, l[t]) + 4) by {
                        assert(apart(slot_at(img, sym_off, delta, l[t]), 4, l[u].0, 10));
                    }
                }
            }
            assert forall|i: int| reloc_sym(img, sym_off, l[u].0) + 8 <= i < reloc_sym(img, sym_off, l[u].0) + 12
                implies #[trigger] c2[i] == img[i] by {
                assert(c[i] == img[i]);
                assert(unpatched(img, sym_off, delta, l, a, a + m, i)) by {
                    assert forall|t: int| a <= t < a + m && reloc_applies(img, #[trigger] l[t].0) implies !(slot_at(
                        img, sym_off, delta, l[t]) <= i < slot_at(img, sym_off, delta, l[t]) + 4) by {
                        assert(apart(slot_at(img, sym_off, delta, l[t]), 4, reloc_sym(img, sym_off, l[u].0) + 8, 4));
                    }
                }
            }
        }
        lemma_sections_window(c2, img, coff_off, sym_off, delta, l, a + m, sec + 40, (n - 1) as nat, lo, hi);
        lemma_list_concat(c, sym_off, delta, x, y);
    }
}

/// With every relocation inside the image and the patched dwords apart from
/// each other, from every relocation entry and symbol value, and from the file
/// and section headers, the whole pass patches each dword once: a DIR32 adds
/// the symbol's value, a REL32 adds `value - (VA + section VA) - 4` (modulo
/// 2^32, `delta` not subtracted), at `VA + section VA + delta`, and every
/// other byte is unchanged.
pub proof fn law_relocs_patch_disjoint_slots(img: Seq<u8>, coff_off: int, sym_off: int, delta: u32)
    requires
        0 <= coff_off,
        coff_off + 20 + 40 * le_u16(img, coff_off + 2) <= img.len(),
        all_relocs_ok(img, sym_off, delta, coff_reloc_list(img, coff_off)),
        slots_disjoint(img, sym_off, delta, coff_reloc_list(img, coff_off), coff_off,
            coff_off + 20 + 40 * le_u16(img, coff_off + 2)),
    ensures
        ({
            let l = coff_reloc_list(img, coff_off);
            let out = coff_relocs_apply(img, coff_off, sym_off, delta);
            &&& out.len() == img.len()
            &&& forall|t: int| 0 <= t < l.len() ==> {
                let r = (#[trigger] l[t]).0;
                let value = le_u32(img, reloc_sym(img, sym_off, r) + 8);
                let at = mod32(le_u32(img, r) + l[t].1);
                let a = mod32(at + delta) as int;
                &&& le_u16(img, r + 8) == RELOC_TYPE_DIR32 ==> le_u32(out, a) == mod32(le_u32(img, a) + value)
                &&& le_u16(img, r + 8) == RELOC_TYPE_REL32 ==> le_u32(out, a) == mod32(le_u32(img, a) + mod32(mod32(
                    value - at) - 4))
            }
            &&& forall|i: int| 0 <= i < img.len() && unpatched(img, sym_off, delta, l, 0, l.len() as int, i)
                ==> #[trigger] out[i] == img[i]
        }),
{
    let l = coff_reloc_list(img, coff_off);
    let n = le_u16(img, coff_off + 2) as nat;
    assert(l.subrange(0, l.len() as int) =~= l);
    lemma_sections_window(img, img, coff_off, sym_off, delta, l, 0, coff_off + 20, n, coff_off, coff_off + 20 + 40 * n);
    lemma_window(img, img, sym_off, delta, l, 0, l.len() as int, coff_off, coff_off + 20 + 40 * n);
}

fn patch(img: &mut [u8], addr: u32, addend: u32)
    requires
        addr as int + 4 <= old(img)@.len(),
    ensures
        final(img)@ == patch_add(old(img)@, addr, addend),
{
    let off = addr as usize;
    let cur = read_u32_le(img, off);
    proof {
        lemma_wadd32(cur, addend);
    }
    write_u32_le_slice(img, off, cur.wrapping_add(addend));
}

/// Apply one relocation entry.
fn apply_reloc(image: &mut [u8], reloc: usize, sym_off: usize, sec_va: u32, delta: u32)
    requires
        reloc_ok(old(image)@, sym_off as int, sec_va, delta, reloc as int),
    ensures
        final(image)@ == reloc_step(old(image)@, sym_off as int, sec_va, delta, reloc as int),
{
    assert(reloc + 10 <= image@.len());
    assert(image@.len() == image.len());
    let sym_index = read_u32_le(image, reloc + OFF_RELOC_SYM_INDEX);
    let sym_ptr = sym_off + (sym_index as usize) * COFF_SYM_SIZE;
    let mut value = read_u32_le(image, sym_ptr + OFF_SYM_VALUE);
    let rtype = read_u16_le(image, reloc + OFF_RELOC_TYPE);
    if rtype == RELOC_TYPE_DIR32 {
        let mut eax = read_u32_le(image, reloc + OFF_RELOC_VA);
        proof {
            lemma_wadd32(eax, sec_va);
            lemma_wadd32(eax.wrapping_add(sec_va), delta);
        }
        eax = eax.wrapping_add(sec_va);
        eax = eax.wrapping_add(delta);
        patch(image, eax, value);
    } else if rtype == RELOC_TYPE_REL32 {
        let mut eax = read_u32_le(image, reloc + OFF_RELOC_VA);
        proof {
            lemma_wadd32(eax, sec_va);
        }
        eax = eax.wrapping_add(sec_va);
        proof {
            lemma_wsub32(value, eax);
            lemma_wsub32(value.wrapping_sub(eax), 4);
            lemma_wadd32(eax, delta);
        }
        value = value.wrapping_sub(eax).wrapping_sub(4);
        eax = eax.wrapping_add(delta);
        patch(image, eax, value);
    }
}

/// Apply the DIR32/REL32 relocations of every section of the COFF file whose
/// header is at `coff_off` in `image`, with symbol records at `sym_off`.
/// Patch addresses are offsets into `image`. Entries are read as they are
/// reached, so an earlier patch is seen by later reads.
pub fn fix_coff_relocs_buffered(image: &mut [u8], coff_off: usize, sym_off: usize, delta: u32)
    requires
        coff_relocs_ok(old(image)@, coff_off as int, sym_off as int, delta),
    ensures
        final(image)@ == coff_relocs_apply(old(image)@, coff_off as int, sym_off as int, delta),
{
    let ghost target = coff_relocs_apply(image@, coff_off as int, sym_off as int, delta);
    assert(image@.len() == image.len());
    let mut n_sec: u32 = read_u16_le(image, coff_off + OFF_N_SECTIONS) as u32;
    let mut sec: usize = coff_off + COFF_HEADER_SIZE;
    let ghost mut gsec: int = sec as int;
    while n_sec != 0
        invariant
            n_sec > 0 ==> sec as int == gsec,
            target == sections_apply(image@, coff_off as int, sym_off as int, delta, gsec, n_sec as nat),
            sections_ok(image@, coff_off as int, sym_off as int, delta, gsec, n_sec as nat),
        decreases n_sec,
    {
        assert(section_ok(image@, coff_off as int, sym_off as int, delta, gsec));
        assert(image@.len() == image.len());
        let ptr_reloc = read_u32_le(image, sec + OFF_SEC_PTR_RELOC);
        let mut num_reloc: u32 = read_u16_le(image, sec + OFF_SEC_NUM_RELOC) as u32;
        let sec_va = read_u32_le(image, sec + OFF_SEC_VIRTUAL_ADDRESS);
        let ghost rest = (n_sec - 1) as nat;
        let mut reloc: usize = coff_off.wrapping_add(ptr_reloc as usize);
        proof {
            if num_reloc > 0 {
                assert(reloc as int == coff_off as int + ptr_reloc as int);
            }
        }
        while num_reloc != 0
            invariant
                num_reloc > 0 ==> relocs_ok(image@, sym_off as int, sec_va, delta, reloc as int, num_reloc as nat),
                target == sections_apply(
                    relocs_apply(image@, sym_off as int, sec_va, delta, reloc as int, num_reloc as nat),
                    coff_off as int, sym_off as int, delta, gsec + 40, rest),
                sections_ok(
                    relocs_apply(image@, sym_off as int, sec_va, delta, reloc as int, num_reloc as nat),
                    coff_off as int, sym_off as int, delta, gsec + 40, rest),
            decreases num_reloc,
        {
            assert(reloc_ok(image@, sym_off as int, sec_va, delta, reloc as int));
            assert(image@.len() == image.len());
            apply_reloc(image, reloc, sym_off, sec_va, delta);
            reloc = reloc + COFF_RELOC_SIZE;
            num_reloc = num_reloc - 1;
        }
        proof {
            if n_sec > 1 {
                assert(section_ok(image@, coff_off as int, sym_off as int, delta, gsec + 40));
            }
        }
        assert(image@.len() == image.len());
        sec = sec.wrapping_add(COFF_SECTION_SIZE);
        n_sec = n_sec - 1;
        proof {
            gsec = gsec + 40;
        }
    }
}

} // verus!
