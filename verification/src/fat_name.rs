//! FAT 8.3 short names: the next collision candidate (`NAME~1`, `NAME~2`,
//! ...) and the short name generated from a long name.

use vstd::prelude::*;
use crate::casefold::{cp866_to_upper, spec_cp866_upper};

verus! {

/// 8.3 name length (8 basename + 3 extension).
pub const FAT_NAME_LEN: usize = 11;

/// Basename length (the part that is mutated).
pub const FAT_BASENAME_LEN: usize = 8;

/// Width of the space fill the generator writes (12 bytes).
pub const FAT_GEN_FILL_LEN: usize = 12;

/// Seed of the pseudo-random generator corpus.
pub const FAT_GEN_SHORT_NAME_PRNG_SEED: u32 = 0xF47_6E01;

/// Result of [`fat_next_short_name`].
#[derive(Clone, Copy, Debug, PartialEq, Eq)]
pub struct FatNextShortNameResult {
    /// `true`: a candidate was written; `false`: no candidate fits.
    pub ok: bool,
}

/// Index of the last `~` among bytes `0 ..= i`, or -1.
pub open spec fn find_tilde(n: Seq<u8>, i: int) -> int
    decreases i + 1,
{
    if i < 0 {
        -1
    } else if n[i] == 0x7E {
        i
    } else {
        find_tilde(n, i - 1)
    }
}

/// Index of the last non-space among bytes `0 ..= p`, or -1.
pub open spec fn last_nonspace(n: Seq<u8>, p: int) -> int
    decreases p + 1,
{
    if p < 0 {
        -1
    } else if n[p] != 0x20 {
        p
    } else {
        last_nonspace(n, p - 1)
    }
}

/// `n` with basename bytes `from .. 8` set to `'0'`.
pub open spec fn zerofill(n: Seq<u8>, from: int) -> Seq<u8> {
    Seq::new(n.len(), |i: int| if from <= i < 8 { 0x30u8 } else { n[i] })
}

/// No `~` yet: append `~1` after the content (at 6 when bytes 6 and 7 are
/// not both spaces).
pub open spec fn insert_tilde(n: Seq<u8>) -> Seq<u8> {
    let pos = if n[6] == 0x20 && n[7] == 0x20 { last_nonspace(n, 5) + 1 } else { 6 };
    n.update(pos, 0x7Eu8).update(pos + 1, 0x31u8)
}

/// Write `al` at `pos`, then `'0'` onwards, up to and including the first
/// position that held a space.
pub open spec fn expand_digits(n: Seq<u8>, pos: int, al: u8) -> Seq<u8>
    decreases 8 - pos,
{
    if pos >= 8 || pos < 0 {
        n
    } else if n[pos] == 0x20 {
        n.update(pos, al)
    } else {
        expand_digits(n.update(pos, al), pos + 1, 0x30u8)
    }
}

/// The walk from byte `e` down to the `~`, having passed `spaces` spaces:
/// * a byte other than space, `'9'` or `~` is incremented and everything
///   after it becomes `'0'`;
/// * at the `~` after spaces: the `9`s become `1` followed by `0`s, reaching
///   into the first space;
/// * at the `~` without spaces: `~` moves one left with `1` and `0`s after
///   it, which fails when the `~` is at index 1 (and does nothing at index 0).
pub open spec fn walk_tilde(n: Seq<u8>, e: int, spaces: nat) -> (Seq<u8>, bool)
    decreases e + 1,
{
    if e < 0 {
        (n, true)
    } else if n[e] == 0x7E {
        if spaces == 0 {
            if e - 1 == 0 {
                (n, false)
            } else if e - 1 < 0 {
                (n, true)
            } else {
                (zerofill(n.update(e - 1, 0x7Eu8).update(e, 0x31u8), e + 1), true)
            }
        } else {
            (expand_digits(n, e + 1, 0x31u8), true)
        }
    } else if n[e] == 0x20 {
        walk_tilde(n, e - 1, spaces + 1)
    } else if n[e] != 0x39 {
        (zerofill(n.update(e, ((n[e] + 1) % 0x100) as u8), e + 1), true)
    } else {
        walk_tilde(n, e - 1, spaces)
    }
}

/// The next short-name candidate of `n` and whether one fits.
pub open spec fn next_short_name(n: Seq<u8>) -> (Seq<u8>, bool) {
    if find_tilde(n, 7) < 0 {
        (insert_tilde(n), true)
    } else {
        walk_tilde(n, 7, 0)
    }
}

/// The basename holds something other than spaces.
pub open spec fn basename_not_blank(n: Seq<u8>) -> bool {
    exists|i: int| 0 <= i < 8 && n[i] != 0x20
}

proof fn lemma_find_tilde(n: Seq<u8>, i: int)
    requires
        i < n.len(),
    ensures
        find_tilde(n, i) >= 0 ==> n[find_tilde(n, i)] == 0x7E && find_tilde(n, i) <= i,
        forall|k: int| find_tilde(n, i) < k <= i ==> n[k] != 0x7E,
    decreases i + 1,
{
    if i >= 0 && n[i] != 0x7E {
        lemma_find_tilde(n, i - 1);
    }
}

proof fn lemma_last_nonspace(n: Seq<u8>, p: int)
    requires
        -1 <= p < n.len(),
    ensures
        -1 <= last_nonspace(n, p) <= p,
        last_nonspace(n, p) >= 0 ==> n[last_nonspace(n, p)] != 0x20,
        forall|k: int| last_nonspace(n, p) < k <= p ==> n[k] == 0x20,
    decreases p + 1,
{
    if p >= 0 && n[p] == 0x20 {
        lemma_last_nonspace(n, p - 1);
    }
}

/// Set basename bytes `from .. 8` to `'0'`.
fn zerofill_to_end(name: &mut [u8], from: usize)
    requires
        old(name)@.len() >= 8,
        from <= 8,
    ensures
        final(name)@ == zerofill(old(name)@, from as int),
{
    let mut k = from;
    while k < 8
        invariant
            from <= k <= 8,
            old(name)@.len() >= 8,
            name@.len() == old(name)@.len(),
            forall|j: int| 0 <= j < name@.len() ==> name@[j] == (if from <= j < k { 0x30u8 } else { old(name)@[j] }),
        decreases 8 - k,
    {
        name[k] = 0x30;
        k = k + 1;
    }
    assert(name@ =~= zerofill(old(name)@, from as int));
}

proof fn lemma_find_tilde_is(n: Seq<u8>, i: int, t: int)
    requires
        n.len() >= 8,
        -1 <= t <= i <= 7,
        t >= 0 ==> n[t] == 0x7E,
        forall|k: int| t < k <= 7 ==> n[k] != 0x7E,
    ensures
        find_tilde(n, i) == t,
    decreases i - t,
{
    if i > t {
        lemma_find_tilde_is(n, i - 1, t);
    }
}

/// Advance an 8.3 name to its next collision candidate (see
/// [`next_short_name`]). Only basename bytes `0 .. 8` are read and written.
pub fn fat_next_short_name(name: &mut [u8]) -> (r: FatNextShortNameResult)
    requires
        old(name)@.len() >= 8,
        basename_not_blank(old(name)@),
    ensures
        final(name)@ == next_short_name(old(name)@).0,
        r.ok == next_short_name(old(name)@).1,
{
    let ghost n = name@;
    let mut i: usize = 8;
    let mut tilde: usize = 8;
    while i > 0 && tilde == 8
        invariant
            i <= 8,
            name@ == n,
            n == old(name)@,
            n.len() >= 8,
            tilde == 8 || tilde == i,
            forall|k: int| i < k < 8 ==> n[k] != 0x7E,
            tilde == 8 ==> i < 8 ==> n[i as int] != 0x7E,
            tilde < 8 ==> n[tilde as int] == 0x7E,
        decreases i,
    {
        if name[i - 1] == 0x7E {
            tilde = i - 1;
        }
        i = i - 1;
    }
    if tilde == 8 {
        proof {
            lemma_find_tilde_is(n, 7, -1);
        }
        let mut pos: usize = 6;
        if name[6] == 0x20 && name[7] == 0x20 {
            proof {
                lemma_last_nonspace(n, 5);
                let w = choose|w: int| 0 <= w < 8 && n[w] != 0x20;
                assert(w <= 5);
                assert(last_nonspace(n, 5) >= w);
            }
            let mut p: usize = 5;
            while name[p] == 0x20
                invariant
                    p <= 5,
                    name@ == n,
                    n.len() >= 8,
                    last_nonspace(n, 5) == last_nonspace(n, p as int),
                    0 <= last_nonspace(n, 5) <= p,
                    n[last_nonspace(n, 5)] != 0x20,
                decreases p,
            {
                p = p - 1;
            }
            pos = p + 1;
        }
        name[pos] = 0x7E;
        name[pos + 1] = 0x31;
        assert(name@ =~= insert_tilde(n));
        return FatNextShortNameResult { ok: true };
    }
    proof {
        lemma_find_tilde_is(n, 7, tilde as int);
    }
    let mut edi: usize = 7;
    let mut spaces: u32 = 0;
    let ghost mut space_at: int = 8;
    loop
        invariant
            tilde as int == find_tilde(n, 7),
            tilde <= edi <= 7,
            name@ == n,
            n == old(name)@,
            n.len() >= 8,
            n[tilde as int] == 0x7E,
            forall|k: int| tilde < k <= 7 ==> n[k] != 0x7E,
            next_short_name(n) == walk_tilde(n, edi as int, spaces as nat),
            spaces <= 7 - edi,
            spaces > 0 ==> edi < space_at <= 7 && n[space_at] == 0x20,
            spaces > 0 ==> forall|k: int| edi < k < space_at ==> n[k] != 0x20,
        decreases edi,
    {
        let b = name[edi];
        if b == 0x7E {
            if spaces == 0 {
                if edi == 1 {
                    return FatNextShortNameResult { ok: false };
                }
                if edi == 0 {
                    return FatNextShortNameResult { ok: true };
                }
                let p = edi - 1;
                name[p] = 0x7E;
                name[p + 1] = 0x31;
                zerofill_to_end(name, p + 2);
                return FatNextShortNameResult { ok: true };
            }
            let mut pos: usize = edi + 1;
            let mut al: u8 = 0x31;
            loop
                invariant
                    edi < pos <= space_at,
                    space_at <= 7,
                    n == old(name)@,
                    name@.len() == n.len(),
                    n.len() >= 8,
                    name@[space_at] == 0x20,
                    forall|k: int| pos <= k < space_at ==> name@[k] != 0x20,
                    next_short_name(n).1,
                    next_short_name(n).0 == expand_digits(name@, pos as int, al),
                decreases space_at - pos,
            {
                let old_b = name[pos];
                name[pos] = al;
                if old_b == 0x20 {
                    return FatNextShortNameResult { ok: true };
                }
                pos = pos + 1;
                al = 0x30;
            }
        }
        if b == 0x20 {
            proof {
                space_at = edi as int;
            }
            edi = edi - 1;
            spaces = spaces + 1;
            continue;
        }
        if b != 0x39 {
            let nb: u8 = if b == 0xFF { 0 } else { b + 1 };
            name[edi] = nb;
            zerofill_to_end(name, edi + 1);
            return FatNextShortNameResult { ok: true };
        }
        edi = edi - 1;
    }
}

/// The characters a short name may hold: `!`, `#`..`)`, `-`, `.`, digits,
/// `@`..`Z`, `^`, `_`, `` ` ``..`z`, `{`, `}`, `~`.
pub open spec fn fat_legal(c: u8) -> bool {
    c == 0x21 || (0x23 <= c <= 0x29) || c == 0x2D || c == 0x2E || (0x30 <= c <= 0x39)
        || (0x40 <= c <= 0x5A) || c == 0x5E || c == 0x5F || (0x60 <= c <= 0x7A)
        || c == 0x7B || c == 0x7D || c == 0x7E
}

/// Whether `c` may stand in a short name (see [`fat_legal`]).
pub fn fat_short_char_ok(c: u8) -> (ok: bool)
    ensures
        ok == fat_legal(c),
{
    if c == 0x21 {
        return true;
    }
    if c >= 0x23 && c <= 0x29 {
        return true;
    }
    if c == 0x2D || c == 0x2E {
        return true;
    }
    if c >= 0x30 && c <= 0x39 {
        return true;
    }
    if c >= 0x40 && c <= 0x5A {
        return true;
    }
    if c == 0x5E || c == 0x5F {
        return true;
    }
    if c >= 0x60 && c <= 0x7A {
        return true;
    }
    if c == 0x7B || c == 0x7D || c == 0x7E {
        return true;
    }
    false
}

/// The generator's registers: the 12-byte buffer, the write index, the
/// slots left in the current field, the lossy and had-dot flags, and the
/// saved basename end.
pub struct GenState {
    pub buf: Seq<u8>,
    pub edi: int,
    pub bl: int,
    pub lossy: bool,
    pub dotted: bool,
    pub saved: int,
}

/// The buffer after moving the extension bytes `8 .. edi` back so that they
/// end at `ebx`, blanking their old places (last byte first).
pub open spec fn rewind_ext(buf: Seq<u8>, edi: int, ebx: int) -> Seq<u8>
    decreases edi - 8,
{
    if edi <= 8 {
        buf
    } else {
        rewind_ext(buf.update(ebx - 1, buf[edi - 1]).update(edi - 1, 0x20u8), edi - 1, ebx - 1)
    }
}

/// One source byte of the generator:
/// * bit 7 set or not a legal character: lossy, skipped;
/// * the first dot starts the extension (a dot before any basename byte is
///   lossy and skipped); a later dot moves the extension back into the
///   basename and starts a new extension, lossy;
/// * another byte is stored upper-cased while the field has room, else lossy.
pub open spec fn gen_step(st: GenState, c: u8) -> GenState {
    if c >= 0x80 || !fat_legal(c) {
        GenState { lossy: true, ..st }
    } else if c == 0x2E {
        if !st.dotted {
            if st.bl == 8 {
                GenState { lossy: true, ..st }
            } else {
                GenState { saved: st.edi, dotted: true, edi: 8, bl: 3, ..st }
            }
        } else {
            let ebx0 = st.saved + st.edi - 8;
            let ebx = if ebx0 >= 8 { 8 } else { ebx0 };
            GenState { buf: rewind_ext(st.buf, st.edi, ebx), saved: ebx, lossy: true, dotted: true, edi: 8, bl: 3 }
        }
    } else if st.bl >= 1 {
        GenState { buf: st.buf.update(st.edi, spec_cp866_upper(c)), edi: st.edi + 1, bl: st.bl - 1, ..st }
    } else {
        GenState { lossy: true, ..st }
    }
}

/// The generator run over `src` from index `i` up to its first NUL.
pub open spec fn gen_run(src: Seq<u8>, i: int, st: GenState) -> GenState
    decreases src.len() - i,
{
    if i < 0 || i >= src.len() || src[i] == 0 {
        st
    } else {
        gen_run(src, i + 1, gen_step(st, src[i]))
    }
}

/// The state before the first byte: twelve spaces, basename field open.
pub open spec fn gen_init() -> GenState {
    GenState { buf: Seq::new(12, |i: int| 0x20u8), edi: 0, bl: 8, lossy: false, dotted: false, saved: 0 }
}

/// The generated 12 bytes: the run's buffer, advanced to the next candidate
/// when the conversion lost something.
pub open spec fn gen_short_name(src: Seq<u8>) -> Seq<u8> {
    let st = gen_run(src, 0, gen_init());
    if st.lossy {
        next_short_name(st.buf).0
    } else {
        st.buf
    }
}

/// The source has a NUL, and a lossy conversion leaves something in the basename.
pub open spec fn gen_short_name_ok(src: Seq<u8>) -> bool {
    &&& exists|j: int| 0 <= j < src.len() && src[j] == 0
    &&& gen_run(src, 0, gen_init()).lossy ==> basename_not_blank(gen_run(src, 0, gen_init()).buf)
}

/// The shape the generator keeps: in the basename field `edi + bl == 8`; in
/// the extension `edi + bl == 11` and the saved end within the basename.
pub open spec fn gen_inv(st: GenState) -> bool {
    &&& st.buf.len() == 12
    &&& 0 <= st.bl <= 8
    &&& if st.dotted {
        8 <= st.edi <= 11 && st.edi + st.bl == 11 && 0 <= st.saved <= 8
    } else {
        0 <= st.edi <= 8 && st.edi + st.bl == 8
    }
}

proof fn lemma_rewind_len(buf: Seq<u8>, edi: int, ebx: int)
    requires
        buf.len() == 12,
        8 <= edi <= 11,
        edi - 8 <= ebx <= 8,
    ensures
        rewind_ext(buf, edi, ebx).len() == 12,
    decreases edi - 8,
{
    if edi > 8 {
        lemma_rewind_len(buf.update(ebx - 1, buf[edi - 1]).update(edi - 1, 0x20u8), edi - 1, ebx - 1);
    }
}

/// Generate the 8.3 short name of the NUL-terminated long name `src` into
/// `out` (see [`gen_short_name`]): twelve spaces first, then the basename
/// and extension, upper-cased; a lossy conversion gets a `~N` suffix.
pub fn fat_gen_short_name(src: &[u8], out: &mut [u8; FAT_GEN_FILL_LEN])
    requires
        gen_short_name_ok(src@),
    ensures
        final(out)@ == gen_short_name(src@),
{
    let mut k: usize = 0;
    while k < FAT_GEN_FILL_LEN
        invariant
            k <= 12,
            forall|j: int| 0 <= j < k ==> out@[j] == 0x20u8,
        decreases 12 - k,
    {
        out[k] = 0x20;
        k = k + 1;
    }
    assert(out@ =~= gen_init().buf);
    let mut edi: usize = 0;
    let ecx: usize = 8;
    let mut bl: u8 = 8;
    let mut lossy: bool = false;
    let mut dotted: bool = false;
    let mut saved: usize = 0;
    let mut i: usize = 0;
    let ghost target = gen_run(src@, 0, gen_init());
    loop
        invariant
            i <= src.len(),
            exists|j: int| i <= j < src.len() && src@[j] == 0,
            ecx == 8,
            gen_inv(GenState { buf: out@, edi: edi as int, bl: bl as int, lossy, dotted, saved: saved as int }),
            target == gen_run(src@, i as int,
                GenState { buf: out@, edi: edi as int, bl: bl as int, lossy, dotted, saved: saved as int }),
        ensures
            i < src.len() && src@[i as int] == 0,
            target == gen_run(src@, i as int,
                GenState { buf: out@, edi: edi as int, bl: bl as int, lossy, dotted, saved: saved as int }),
        decreases src.len() - i,
    {
        let al = src[i];
        let ghost st = GenState { buf: out@, edi: edi as int, bl: bl as int, lossy, dotted, saved: saved as int };
        if al == 0 {
            break;
        }
        i = i + 1;
        if al >= 0x80 {
            lossy = true;
            continue;
        }
        if !fat_short_char_ok(al) {
            lossy = true;
            continue;
        }
        if al == 0x2E {
            if !dotted {
                if bl == 8 {
                    lossy = true;
                    continue;
                }
                saved = edi;
                dotted = true;
                edi = ecx;
                bl = 3;
                continue;
            }
            let mut ebx: usize = saved + edi - ecx;
            saved = ebx;
            if ebx >= ecx {
                saved = ecx;
                ebx = ecx;
            }
            let ghost ebx_start = ebx as int;
            proof {
                lemma_rewind_len(out@, edi as int, ebx as int);
            }
            while edi > ecx
                invariant
                    ecx == 8,
                    8 <= edi <= 11,
                    edi - 8 <= ebx <= 8,
                    out@.len() == 12,
                    rewind_ext(st.buf, st.edi, ebx_start) == rewind_ext(out@, edi as int, ebx as int),
                decreases edi,
            {
                edi = edi - 1;
                let ch = out[edi];
                ebx = ebx - 1;
                out[ebx] = ch;
                out[edi] = 0x20;
            }
            lossy = true;
            dotted = true;
            edi = ecx;
            bl = 3;
            continue;
        }
        if bl >= 1 {
            bl = bl - 1;
            let up = cp866_to_upper(al);
            out[edi] = up;
            edi = edi + 1;
            continue;
        }
        lossy = true;
    }
    if lossy {
        let _ = fat_next_short_name(out);
    }
}

proof fn lemma_expand_keeps_tail(n: Seq<u8>, pos: int, al: u8)
    requires
        n.len() >= 8,
    ensures
        expand_digits(n, pos, al).len() == n.len(),
        forall|i: int| 8 <= i < n.len() ==> expand_digits(n, pos, al)[i] == n[i],
    decreases 8 - pos,
{
    if 0 <= pos < 8 && n[pos] != 0x20 {
        lemma_expand_keeps_tail(n.update(pos, al), pos + 1, 0x30u8);
        assert forall|i: int| 8 <= i < n.len() implies n.update(pos, al)[i] == n[i] by {}
    }
}

proof fn lemma_walk_keeps_tail(n: Seq<u8>, e: int, spaces: nat)
    requires
        n.len() >= 8,
        e <= 7,
    ensures
        walk_tilde(n, e, spaces).0.len() == n.len(),
        forall|i: int| 8 <= i < n.len() ==> walk_tilde(n, e, spaces).0[i] == n[i],
    decreases e + 1,
{
    if e >= 0 {
        if n[e] == 0x7E {
            if spaces > 0 {
                lemma_expand_keeps_tail(n, e + 1, 0x31u8);
            }
        } else if n[e] == 0x20 {
            lemma_walk_keeps_tail(n, e - 1, spaces + 1);
        } else if n[e] == 0x39 {
            lemma_walk_keeps_tail(n, e - 1, spaces);
        }
    }
}

/// Advancing a short name never changes the extension (bytes from 8 on)
/// nor the length.
pub proof fn law_next_short_name_keeps_extension(n: Seq<u8>)
    requires
        n.len() >= 8,
    ensures
        next_short_name(n).0.len() == n.len(),
        forall|i: int| 8 <= i < n.len() ==> next_short_name(n).0[i] == n[i],
{
    if find_tilde(n, 7) < 0 {
        lemma_last_nonspace(n, 5);
        let pos = if n[6] == 0x20 && n[7] == 0x20 { last_nonspace(n, 5) + 1 } else { 6 };
        assert(0 <= pos <= 6);
        assert(insert_tilde(n) == n.update(pos, 0x7Eu8).update(pos + 1, 0x31u8));
    } else {
        lemma_walk_keeps_tail(n, 7, 0);
    }
}

proof fn lemma_walk_fails(n: Seq<u8>, e: int, s: nat, t: int)
    requires
        n.len() >= 8,
        0 <= t <= e <= 7,
        n[t] == 0x7E,
        forall|k: int| t < k <= e ==> n[k] != 0x7E,
    ensures
        !walk_tilde(n, e, s).1 <==> (s == 0 && t == 1 && forall|k: int| t < k <= e ==> n[k] == 0x39),
        !walk_tilde(n, e, s).1 ==> walk_tilde(n, e, s).0 == n,
    decreases e,
{
    if e > t {
        if n[e] == 0x20 {
            lemma_walk_fails(n, e - 1, s + 1, t);
        } else if n[e] != 0x39 {
        } else {
            lemma_walk_fails(n, e - 1, s, t);
            if s == 0 && t == 1 && forall|k: int| t < k <= e - 1 ==> n[k] == 0x39 {
                assert(forall|k: int| t < k <= e ==> n[k] == 0x39);
            }
        }
    }
}

/// No next candidate exists exactly when the last `~` of the basename is at
/// index 1 and every byte after it is `'9'` (`N~999999`); the name is then
/// left as it was.
pub proof fn law_next_short_name_fails(n: Seq<u8>)
    requires
        n.len() >= 8,
    ensures
        !next_short_name(n).1 <==> (find_tilde(n, 7) == 1 && forall|k: int| 2 <= k < 8 ==> n[k] == 0x39),
        !next_short_name(n).1 ==> next_short_name(n).0 == n,
{
    lemma_find_tilde(n, 7);
    let t = find_tilde(n, 7);
    if t >= 0 {
        lemma_walk_fails(n, 7, 0, t);
    }
}

proof fn lemma_rewind_keeps_last(buf: Seq<u8>, edi: int, ebx: int)
    requires
        buf.len() == 12,
        buf[11] == 0x20,
        8 <= edi <= 11,
        edi - 8 <= ebx <= 8,
    ensures
        rewind_ext(buf, edi, ebx).len() == 12,
        rewind_ext(buf, edi, ebx)[11] == 0x20,
    decreases edi - 8,
{
    if edi > 8 {
        lemma_rewind_keeps_last(buf.update(ebx - 1, buf[edi - 1]).update(edi - 1, 0x20u8), edi - 1, ebx - 1);
    }
}

proof fn lemma_gen_run_inv(src: Seq<u8>, i: int, st: GenState)
    requires
        gen_inv(st),
        st.buf[11] == 0x20,
    ensures
        gen_inv(gen_run(src, i, st)),
        gen_run(src, i, st).buf[11] == 0x20,
    decreases src.len() - i,
{
    if 0 <= i < src.len() && src[i] != 0 {
        let c = src[i];
        if c < 0x80 && fat_legal(c) && c == 0x2E && st.dotted {
            let ebx0 = st.saved + st.edi - 8;
            let ebx = if ebx0 >= 8 { 8 } else { ebx0 };
            lemma_rewind_keeps_last(st.buf, st.edi, ebx);
        }
        lemma_gen_run_inv(src, i + 1, gen_step(st, c));
    }
}

/// The generator's twelfth byte stays a space, and the result has twelve bytes.
pub proof fn law_gen_keeps_twelfth_space(src: Seq<u8>)
    ensures
        gen_short_name(src).len() == 12,
        gen_short_name(src)[11] == 0x20,
{
    lemma_gen_run_inv(src, 0, gen_init());
    let st = gen_run(src, 0, gen_init());
    if st.lossy {
        law_next_short_name_keeps_extension(st.buf);
    }
}

} // verus!
