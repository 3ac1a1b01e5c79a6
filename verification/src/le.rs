//! Little-endian field access on byte buffers.

use vstd::prelude::*;

verus! {

/// The little-endian `u16` stored at `off` in `s`.
pub open spec fn le_u16(s: Seq<u8>, off: int) -> u16 {
    (s[off] as int + s[off + 1] as int * 0x100) as u16
}

/// The little-endian `u32` stored at `off` in `s`.
pub open spec fn le_u32(s: Seq<u8>, off: int) -> u32 {
    (s[off] as int + s[off + 1] as int * 0x100 + s[off + 2] as int * 0x1_0000
        + s[off + 3] as int * 0x100_0000) as u32
}

/// The four little-endian bytes of `v`.
pub open spec fn le_bytes32(v: u32) -> Seq<u8> {
    seq![(v % 0x100) as u8, ((v / 0x100) % 0x100) as u8, ((v / 0x1_0000) % 0x100) as u8, (v / 0x100_0000) as u8]
}

/// `s` with the four bytes at `off` replaced by the little-endian bytes of `v`.
pub open spec fn put_u32(s: Seq<u8>, off: int, v: u32) -> Seq<u8> {
    s.update(off, (v % 0x100) as u8)
        .update(off + 1, ((v / 0x100) % 0x100) as u8)
        .update(off + 2, ((v / 0x1_0000) % 0x100) as u8)
        .update(off + 3, (v / 0x100_0000) as u8)
}

/// Reading back a freshly written little-endian `u32` gives the value written.
pub proof fn lemma_le_u32_put(s: Seq<u8>, off: int, v: u32)
    requires
        0 <= off,
        off + 4 <= s.len(),
    ensures
        le_u32(put_u32(s, off, v), off) == v,
        put_u32(s, off, v).len() == s.len(),
{
    let t = put_u32(s, off, v);
    assert(t[off] == (v % 0x100) as u8);
    assert(t[off + 1] == ((v / 0x100) % 0x100) as u8);
    assert(t[off + 2] == ((v / 0x1_0000) % 0x100) as u8);
    assert(t[off + 3] == (v / 0x100_0000) as u8);
}

/// A write of four bytes leaves every byte outside them unchanged.
pub proof fn lemma_put_u32_other(s: Seq<u8>, off: int, v: u32, i: int)
    requires
        0 <= off,
        off + 4 <= s.len(),
        0 <= i < s.len(),
        i < off || off + 4 <= i,
    ensures
        put_u32(s, off, v)[i] == s[i],
{
}

/// A write of four bytes leaves a disjoint little-endian field unchanged.
pub proof fn lemma_le_u32_put_other(s: Seq<u8>, off: int, v: u32, off2: int)
    requires
        0 <= off,
        off + 4 <= s.len(),
        0 <= off2,
        off2 + 4 <= s.len(),
        off2 + 4 <= off || off + 4 <= off2,
    ensures
        le_u32(put_u32(s, off, v), off2) == le_u32(s, off2),
{
}

/// Writing back the little-endian `u32` read at `off` leaves the bytes as they were.
pub proof fn lemma_put_u32_same(s: Seq<u8>, off: int)
    requires
        0 <= off,
        off + 4 <= s.len(),
    ensures
        put_u32(s, off, le_u32(s, off)) =~= s,
{
    let b0 = s[off] as int;
    let b1 = s[off + 1] as int;
    let b2 = s[off + 2] as int;
    let b3 = s[off + 3] as int;
    let v = le_u32(s, off) as int;
    assert(v == b0 + b1 * 0x100 + b2 * 0x1_0000 + b3 * 0x100_0000);
    assert(v % 0x100 == b0 && (v / 0x100) % 0x100 == b1 && (v / 0x1_0000) % 0x100 == b2 && v / 0x100_0000 == b3)
        by (nonlinear_arith)
        requires
            v == b0 + b1 * 0x100 + b2 * 0x1_0000 + b3 * 0x100_0000,
            0 <= b0 < 0x100,
            0 <= b1 < 0x100,
            0 <= b2 < 0x100,
            0 <= b3 < 0x100,
    ;
}

/// Read the little-endian `u16` at `off`.
pub fn read_u16_le(s: &[u8], off: usize) -> (r: u16)
    requires
        off + 2 <= s.len(),
    ensures
        r == le_u16(s@, off as int),
{
    (s[off] as u16) + (s[off + 1] as u16) * 0x100
}

/// Read the little-endian `u32` at `off`.
pub fn read_u32_le(s: &[u8], off: usize) -> (r: u32)
    requires
        off + 4 <= s.len(),
    ensures
        r == le_u32(s@, off as int),
{
    (s[off] as u32) + (s[off + 1] as u32) * 0x100 + (s[off + 2] as u32) * 0x1_0000
        + (s[off + 3] as u32) * 0x100_0000
}

/// Write `v` little-endian at `off`.
pub fn write_u32_le(s: &mut Vec<u8>, off: usize, v: u32)
    requires
        off + 4 <= old(s).len(),
    ensures
        final(s)@ == put_u32(old(s)@, off as int, v),
{
    s.set(off, (v % 0x100) as u8);
    s.set(off + 1, ((v / 0x100) % 0x100) as u8);
    s.set(off + 2, ((v / 0x1_0000) % 0x100) as u8);
    s.set(off + 3, (v / 0x100_0000) as u8);
}

/// Write `v` little-endian at `off` of a slice.
pub fn write_u32_le_slice(s: &mut [u8], off: usize, v: u32)
    requires
        off + 4 <= old(s)@.len(),
    ensures
        final(s)@ == put_u32(old(s)@, off as int, v),
{
    s[off] = (v % 0x100) as u8;
    s[off + 1] = ((v / 0x100) % 0x100) as u8;
    s[off + 2] = ((v / 0x1_0000) % 0x100) as u8;
    s[off + 3] = (v / 0x100_0000) as u8;
    assert(s@ =~= put_u32(old(s)@, off as int, v));
}

/// Write `v` little-endian at `off` of a fixed-size array.
pub fn write_u32_le_arr<const N: usize>(s: &mut [u8; N], off: usize, v: u32)
    requires
        off + 4 <= N,
    ensures
        final(s)@ == put_u32(old(s)@, off as int, v),
{
    s[off] = (v % 0x100) as u8;
    s[off + 1] = ((v / 0x100) % 0x100) as u8;
    s[off + 2] = ((v / 0x1_0000) % 0x100) as u8;
    s[off + 3] = (v / 0x100_0000) as u8;
}

} // verus!
