//! COFF symbol table fixup: external symbols are resolved by name through the
//! kernel's export lookup, internal ones get their section's address added,
//! absolute and debug symbols stay as they are.

use vstd::prelude::*;
use crate::coff_reloc::{COFF_SECTION_SIZE, OFF_SEC_VIRTUAL_ADDRESS};
use crate::coff_sym::{COFF_SYM_SIZE, OFF_SYM_SECTION, OFF_SYM_VALUE};
use crate::le::{le_u16, le_u32, put_u32, lemma_le_u32_put, lemma_le_u32_put_other, read_u16_le, read_u32_le, write_u32_le_slice};

verus! {

/// The name an external symbol is looked up by: its eight inline name bytes,
/// or (when the first name dword is 0) an offset into the string table.
#[derive(Clone, Copy, Debug, PartialEq, Eq)]
pub enum SymName {
    Inline([u8; 8]),
    Long(u32),
}

/// The name of the symbol record at `o`.
pub open spec fn sym_name(t: Seq<u8>, o: int) -> SymName {
    if le_u32(t, o) == 0 {
        SymName::Long(le_u32(t, o + 4))
    } else {
        SymName::Inline([t[o], t[o + 1], t[o + 2], t[o + 3], t[o + 4], t[o + 5], t[o + 6], t[o + 7]])
    }
}

/// The section number of symbol `i`.
pub open spec fn sym_section(t: Seq<u8>, i: int) -> u16 {
    le_u16(t, 18 * i + 12)
}

/// Whether symbol `i` is internal: a real section, not absolute (0xFFFF) or
/// debug (0xFFFE), not external (0).
pub open spec fn is_internal(t: Seq<u8>, i: int) -> bool {
    sym_section(t, i) != 0 && sym_section(t, i) != 0xFFFF && sym_section(t, i) != 0xFFFE
}

/// The virtual address of (1-based) section `n`.
pub open spec fn section_va(sec: Seq<u8>, n: u16) -> u32 {
    le_u32(sec, (n - 1) * 40 + 12)
}

/// What the fixup leaves in the value of symbol `i` (of `old`): what the lookup
/// answered for an external symbol, the value plus the section's address
/// (wrapping) for an internal one, else the value unchanged.
pub open spec fn fixed_value_ok<F: Fn(SymName, u32) -> u32>(
    get_proc_ex: F,
    old: Seq<u8>,
    sec: Seq<u8>,
    imports: u32,
    i: int,
    v: u32,
) -> bool {
    if sym_section(old, i) == 0 {
        call_ensures(get_proc_ex, (sym_name(old, 18 * i), imports), v)
    } else if is_internal(old, i) {
        v == ((le_u32(old, 18 * i + 8) + section_va(sec, sym_section(old, i))) % 0x1_0000_0000) as u32
    } else {
        v == le_u32(old, 18 * i + 8)
    }
}

/// Whether byte `j` lies in the value field of one of the first `k` records.
pub open spec fn in_value_field(j: int, k: int) -> bool {
    0 <= j < 18 * k && 8 <= j % 18 < 12
}

/// Whether some external symbol among the first `k` of `t` was left at 0.
pub open spec fn some_unresolved(old: Seq<u8>, t: Seq<u8>, k: int) -> bool {
    exists|i: int| 0 <= i < k && sym_section(old, i) == 0 && #[trigger] le_u32(t, 18 * i + 8) == 0
}

/// What the fixup of `count` symbols leaves: each value as
/// [`fixed_value_ok`] says, every other byte unchanged.
pub open spec fn symbols_fixed<F: Fn(SymName, u32) -> u32>(
    get_proc_ex: F,
    old: Seq<u8>,
    new: Seq<u8>,
    sec: Seq<u8>,
    imports: u32,
    k: int,
) -> bool {
    &&& new.len() == old.len()
    &&& forall|i: int| 0 <= i < k ==> #[trigger] fixed_value_ok(get_proc_ex, old, sec, imports, i, le_u32(new, 18 * i + 8))
    &&& forall|j: int| 0 <= j < new.len() && !in_value_field(j, k) ==> #[trigger] new[j] == old[j]
}

/// The section headers that the internal symbols among the first `count`
/// refer to are present.
pub open spec fn sections_present(t: Seq<u8>, sec: Seq<u8>, count: int) -> bool {
    forall|i: int| 0 <= i < count && #[trigger] is_internal(t, i) ==> (sym_section(t, i) - 1) * 40 + 16 <= sec.len()
}

fn read_name(t: &[u8], o: usize) -> (n: SymName)
    requires
        o + 8 <= t.len(),
    ensures
        n == sym_name(t@, o as int),
{
    if read_u32_le(t, o) == 0 {
        SymName::Long(read_u32_le(t, o + 4))
    } else {
        SymName::Inline([t[o], t[o + 1], t[o + 2], t[o + 3], t[o + 4], t[o + 5], t[o + 6], t[o + 7]])
    }
}

/// Symbol `k` after its section's address is added to an internal symbol's
/// value (other symbols unchanged).
pub open spec fn fix_record(t: Seq<u8>, sec: Seq<u8>, k: int) -> Seq<u8> {
    if is_internal(t, k) {
        put_u32(t, 18 * k + 8, ((le_u32(t, 18 * k + 8) + section_va(sec, sym_section(t, k))) % 0x1_0000_0000) as u32)
    } else {
        t
    }
}

/// Fix symbols from `k` on up to the next external one (or `count`): the
/// table then, and where it stopped.
pub open spec fn skip_internal(t: Seq<u8>, sec: Seq<u8>, k: int, count: int) -> (Seq<u8>, int)
    decreases count - k,
{
    if k >= count || k < 0 || sym_section(t, k) == 0 {
        (t, k)
    } else {
        skip_internal(fix_record(t, sec, k), sec, k + 1, count)
    }
}

/// Where a symbol fixup stands: the symbol reached, the result so far, and
/// whether the lookup of that (external) symbol is awaited.
#[derive(Clone, Copy, Debug, PartialEq, Eq)]
pub struct SymFixState {
    pub next: u32,
    pub retval: u32,
    pub awaiting: bool,
}

/// What a symbol fixup asks for next.
#[derive(Clone, Copy, Debug, PartialEq, Eq)]
pub enum SymFixAction {
    /// Look up `name` and hand the answer to [`sym_fix_step`].
    LookUp { name: SymName },
    /// All symbols are fixed; `result` is 1, or 0 when a lookup answered 0.
    Done { result: u32 },
}

/// The state a symbol fixup starts in.
pub open spec fn sym_fix_init() -> SymFixState {
    SymFixState { next: 0, retval: 1, awaiting: false }
}

/// The transition of [`sym_fix_step`]: the table after it, the next state
/// and the next action.
pub open spec fn sym_fix_next(t: Seq<u8>, sec: Seq<u8>, count: int, st: SymFixState, answer: u32) -> (Seq<u8>, SymFixState, SymFixAction) {
    let t1 = if st.awaiting { put_u32(t, 18 * st.next + 8, answer) } else { t };
    let k1 = if st.awaiting { st.next + 1 } else { st.next as int };
    let rv = if st.awaiting && answer == 0 { 0u32 } else { st.retval };
    let r = skip_internal(t1, sec, k1, count);
    if r.1 < count {
        (r.0, SymFixState { next: r.1 as u32, retval: rv, awaiting: true }, SymFixAction::LookUp { name: sym_name(r.0, 18 * r.1) })
    } else {
        (r.0, SymFixState { next: count as u32, retval: rv, awaiting: false }, SymFixAction::Done { result: rv })
    }
}

/// Symbols `a` and `b` (the first `count`) have the same names and sections.
pub open spec fn same_layout(a: Seq<u8>, b: Seq<u8>, count: int) -> bool {
    &&& a.len() == b.len()
    &&& forall|j: int| 0 <= j < count ==> #[trigger] sym_section(b, j) == sym_section(a, j) && sym_name(b, 18 * j) == sym_name(a, 18 * j)
}

/// Writing a symbol's value keeps every symbol's name and section.
proof fn lemma_value_write_layout(t: Seq<u8>, k: int, v: u32, count: int)
    requires
        0 <= k < count,
        18 * count <= t.len(),
    ensures
        same_layout(t, put_u32(t, 18 * k + 8, v), count),
{
    let t1 = put_u32(t, 18 * k + 8, v);
    crate::le::lemma_le_u32_put(t, 18 * k + 8, v);
    assert forall|j: int| 0 <= j < count implies #[trigger] sym_section(t1, j) == sym_section(t, j) && sym_name(t1, 18 * j) == sym_name(t, 18 * j) by {
        crate::le::lemma_put_u32_other(t, 18 * k + 8, v, 18 * j);
        crate::le::lemma_put_u32_other(t, 18 * k + 8, v, 18 * j + 1);
        crate::le::lemma_put_u32_other(t, 18 * k + 8, v, 18 * j + 2);
        crate::le::lemma_put_u32_other(t, 18 * k + 8, v, 18 * j + 3);
        crate::le::lemma_put_u32_other(t, 18 * k + 8, v, 18 * j + 4);
        crate::le::lemma_put_u32_other(t, 18 * k + 8, v, 18 * j + 5);
        crate::le::lemma_put_u32_other(t, 18 * k + 8, v, 18 * j + 6);
        crate::le::lemma_put_u32_other(t, 18 * k + 8, v, 18 * j + 7);
        crate::le::lemma_put_u32_other(t, 18 * k + 8, v, 18 * j + 12);
        crate::le::lemma_put_u32_other(t, 18 * k + 8, v, 18 * j + 13);
        assert(t1[18 * j + 12] == t[18 * j + 12] && t1[18 * j + 13] == t[18 * j + 13]);
        assert(t1[18 * j] == t[18 * j] && t1[18 * j + 1] == t[18 * j + 1] && t1[18 * j + 2] == t[18 * j + 2] && t1[18 * j + 3] == t[18 * j + 3]);
        assert(t1[18 * j + 4] == t[18 * j + 4] && t1[18 * j + 5] == t[18 * j + 5] && t1[18 * j + 6] == t[18 * j + 6] && t1[18 * j + 7] == t[18 * j + 7]);
    }
}

proof fn lemma_same_layout_trans(a: Seq<u8>, b: Seq<u8>, c: Seq<u8>, count: int)
    requires
        same_layout(a, b, count),
        same_layout(b, c, count),
    ensures
        same_layout(a, c, count),
{
    assert forall|j: int| 0 <= j < count implies #[trigger] sym_section(c, j) == sym_section(a, j) && sym_name(c, 18 * j) == sym_name(a, 18 * j) by {
        assert(sym_section(b, j) == sym_section(a, j));
        assert(sym_section(c, j) == sym_section(b, j));
    }
}

/// Fixing up to the next external symbol keeps names and sections, and stops
/// at an external symbol or at `count`.
proof fn lemma_skip_layout(t: Seq<u8>, sec: Seq<u8>, k: int, count: int)
    requires
        0 <= k <= count,
        18 * count <= t.len(),
    ensures
        same_layout(t, skip_internal(t, sec, k, count).0, count),
        k <= skip_internal(t, sec, k, count).1 <= count,
        skip_internal(t, sec, k, count).1 < count ==> sym_section(t, skip_internal(t, sec, k, count).1) == 0,
        forall|j: int| k <= j < skip_internal(t, sec, k, count).1 ==> sym_section(t, j) != 0,
    decreases count - k,
{
    if k < count && sym_section(t, k) != 0 {
        let t1 = fix_record(t, sec, k);
        if is_internal(t, k) {
            lemma_value_write_layout(t, k, ((le_u32(t, 18 * k + 8) + section_va(sec, sym_section(t, k))) % 0x1_0000_0000) as u32, count);
        } else {
            assert(same_layout(t, t1, count));
        }
        lemma_skip_layout(t1, sec, k + 1, count);
        lemma_same_layout_trans(t, t1, skip_internal(t1, sec, k + 1, count).0, count);
        let e = skip_internal(t1, sec, k + 1, count).1;
        assert(sym_section(t1, k) == sym_section(t, k));
        if e < count {
            assert(sym_section(t1, e) == sym_section(t, e));
        }
        assert forall|j: int| k <= j < e implies sym_section(t, j) != 0 by {
            if j > k {
                assert(sym_section(t1, j) == sym_section(t, j));
            }
        }
    } else {
        assert(same_layout(t, t, count));
    }
}

/// Start a symbol fixup of `sym_count` records in `table`: internal symbols
/// up to the first external one are fixed, and that one's lookup is asked
/// for (or the fixup is done).
pub fn sym_fix_begin(table: &mut [u8], sec: &[u8], sym_count: u32) -> (res: (SymFixState, SymFixAction))
    requires
        18 * sym_count <= old(table)@.len(),
        sections_present(old(table)@, sec@, sym_count as int),
    ensures
        (final(table)@, res.0, res.1) == sym_fix_next(old(table)@, sec@, sym_count as int, sym_fix_init(), 0),
{
    sym_fix_step(table, sec, sym_count, SymFixState { next: 0, retval: 1, awaiting: false }, 0)
}

/// One step of a symbol fixup: when a lookup was awaited, `answer` is stored
/// as that symbol's value (an answer of 0 makes the result 0); then internal
/// symbols get their section's address added and absolute and debug ones are
/// kept, up to the next external symbol, whose lookup is asked for, or to the
/// end, where the result is given.
pub fn sym_fix_step(table: &mut [u8], sec: &[u8], sym_count: u32, st: SymFixState, answer: u32) -> (res: (
    SymFixState,
    SymFixAction,
))
    requires
        18 * sym_count <= old(table)@.len(),
        sections_present(old(table)@, sec@, sym_count as int),
        st.next <= sym_count,
        st.awaiting ==> st.next < sym_count,
    ensures
        (final(table)@, res.0, res.1) == sym_fix_next(old(table)@, sec@, sym_count as int, st, answer),
{
    let ghost t0 = table@;
    let n = table.len();
    let mut k: u32 = st.next;
    let mut rv: u32 = st.retval;
    if st.awaiting {
        assert((k as int) * 18 + 18 <= 18 * (sym_count as int)) by (nonlinear_arith)
            requires k < sym_count;
        assert(18 * (sym_count as int) <= n);
        write_u32_le_slice(table, (k as usize) * COFF_SYM_SIZE + OFF_SYM_VALUE, answer);
        if answer == 0 {
            rv = 0;
        }
        k = k + 1;
        proof {
            lemma_value_write_layout(t0, st.next as int, answer, sym_count as int);
        }
    }
    let ghost t1 = table@;
    let ghost k1 = k as int;
    proof {
        assert forall|i: int| 0 <= i < sym_count && #[trigger] is_internal(t1, i) implies (sym_section(t1, i) - 1) * 40 + 16 <= sec@.len() by {
            assert(sym_section(t1, i) == sym_section(t0, i));
            assert(is_internal(t0, i));
        }
    }
    while k < sym_count
        invariant
            18 * sym_count <= t1.len(),
            n == table@.len(),
            t0 == old(table)@,
            rv == (if st.awaiting && answer == 0 { 0u32 } else { st.retval }),
            k1 == (if st.awaiting { st.next + 1 } else { st.next as int }),
            t1 == (if st.awaiting { put_u32(t0, 18 * st.next + 8, answer) } else { t0 }),
            k1 <= k <= sym_count,
            table@.len() == t1.len(),
            sections_present(table@, sec@, sym_count as int),
            skip_internal(table@, sec@, k as int, sym_count as int) == skip_internal(t1, sec@, k1, sym_count as int),
        decreases sym_count - k,
    {
        assert((k as int) * 18 + 18 <= 18 * (sym_count as int)) by (nonlinear_arith)
            requires k < sym_count;
        let o = (k as usize) * COFF_SYM_SIZE;
        assert(o == 18 * k);
        let section = read_u16_le(table, o + OFF_SYM_SECTION);
        if section == 0 {
            assert(sym_section(table@, k as int) == 0);
            assert(skip_internal(table@, sec@, k as int, sym_count as int) == (table@, k as int));
            let name = read_name(table, o);
            return (SymFixState { next: k, retval: rv, awaiting: true }, SymFixAction::LookUp { name });
        }
        let ghost tb = table@;
        if section != 0xFFFF && section != 0xFFFE {
            assert(is_internal(tb, k as int));
            let so = (section as usize - 1) * COFF_SECTION_SIZE + OFF_SEC_VIRTUAL_ADDRESS;
            let va = read_u32_le(sec, so);
            let cur = read_u32_le(table, o + OFF_SYM_VALUE);
            proof {
                crate::wrap::lemma_wadd32(cur, va);
            }
            write_u32_le_slice(table, o + OFF_SYM_VALUE, cur.wrapping_add(va));
            proof {
                lemma_value_write_layout(tb, k as int, cur.wrapping_add(va), sym_count as int);
                assert forall|i: int| 0 <= i < sym_count && #[trigger] is_internal(table@, i) implies (sym_section(table@, i) - 1) * 40 + 16 <= sec@.len() by {
                    assert(sym_section(table@, i) == sym_section(tb, i));
                    assert(is_internal(tb, i));
                }
            }
        }
        assert(table@ == fix_record(tb, sec@, k as int));
        k = k + 1;
    }
    (SymFixState { next: sym_count, retval: rv, awaiting: false }, SymFixAction::Done { result: rv })
}

/// After fixing symbol `k`, the fixup state covers `k + 1` symbols.
proof fn lemma_fix_step<F: Fn(SymName, u32) -> u32>(
    get_proc_ex: F,
    old_t: Seq<u8>,
    t0: Seq<u8>,
    t1: Seq<u8>,
    sec: Seq<u8>,
    imports: u32,
    k: int,
    wrote: bool,
    v: u32,
)
    requires
        0 <= k,
        18 * k + 18 <= old_t.len(),
        symbols_fixed(get_proc_ex, old_t, t0, sec, imports, k),
        wrote ==> t1 == put_u32(t0, 18 * k + 8, v),
        !wrote ==> t1 == t0,
        fixed_value_ok(get_proc_ex, t0, sec, imports, k, if wrote { v } else { le_u32(t0, 18 * k + 8) }),
    ensures
        symbols_fixed(get_proc_ex, old_t, t1, sec, imports, k + 1),
        some_unresolved(old_t, t1, k + 1) == (some_unresolved(old_t, t0, k)
            || (sym_section(old_t, k) == 0 && le_u32(t1, 18 * k + 8) == 0)),
{
    let o = 18 * k;
    assert forall|j: int| o <= j < o + 18 implies t0[j] == old_t[j] by {
        assert(!in_value_field(j, k));
    }
    assert(sym_section(t0, k) == sym_section(old_t, k));
    assert(sym_name(t0, o) == sym_name(old_t, o));
    assert(le_u32(t0, o + 8) == le_u32(old_t, o + 8));
    if wrote {
        lemma_le_u32_put(t0, o + 8, v);
        assert forall|i: int| 0 <= i < k implies #[trigger] le_u32(t1, 18 * i + 8) == le_u32(t0, 18 * i + 8) by {
            lemma_le_u32_put_other(t0, o + 8, v, 18 * i + 8);
        }
    }
    assert forall|i: int| 0 <= i < k + 1 implies #[trigger] fixed_value_ok(get_proc_ex, old_t, sec, imports, i, le_u32(t1, 18 * i + 8)) by {
        if i < k {
            assert(le_u32(t1, 18 * i + 8) == le_u32(t0, 18 * i + 8));
        }
    }
    assert forall|j: int| 0 <= j < t1.len() && !in_value_field(j, k + 1) implies #[trigger] t1[j] == old_t[j] by {
        assert(!in_value_field(j, k));
        if wrote && o + 8 <= j < o + 12 {
            assert(j % 18 == j - o) by {
                assert(j == 18 * k + (j - o));
            }
            assert(false);
        }
    }
    if some_unresolved(old_t, t1, k + 1) {
        let i = choose|i: int| 0 <= i < k + 1 && sym_section(old_t, i) == 0 && #[trigger] le_u32(t1, 18 * i + 8) == 0;
        if i < k {
            assert(le_u32(t0, 18 * i + 8) == 0);
        }
    }
    if some_unresolved(old_t, t0, k) {
        let i = choose|i: int| 0 <= i < k && sym_section(old_t, i) == 0 && #[trigger] le_u32(t0, 18 * i + 8) == 0;
        assert(le_u32(t1, 18 * i + 8) == 0);
    }
}

proof fn lemma_layout_sections(a: Seq<u8>, b: Seq<u8>, sec: Seq<u8>, count: int)
    requires
        same_layout(a, b, count),
        sections_present(a, sec, count),
    ensures
        sections_present(b, sec, count),
{
    assert forall|i: int| 0 <= i < count && #[trigger] is_internal(b, i) implies (sym_section(b, i) - 1) * 40 + 16 <= sec.len() by {
        assert(sym_section(b, i) == sym_section(a, i));
        assert(is_internal(a, i));
    }
}

/// Fixing up to the next external symbol extends the fixup state there, and
/// leaves no new external symbol at 0.
proof fn lemma_skip_fixed<F: Fn(SymName, u32) -> u32>(
    get_proc_ex: F,
    old_t: Seq<u8>,
    t: Seq<u8>,
    sec: Seq<u8>,
    imports: u32,
    k: int,
    count: int,
)
    requires
        0 <= k <= count,
        18 * count <= old_t.len(),
        symbols_fixed(get_proc_ex, old_t, t, sec, imports, k),
        same_layout(old_t, t, count),
    ensures
        symbols_fixed(get_proc_ex, old_t, skip_internal(t, sec, k, count).0, sec, imports, skip_internal(t, sec, k, count).1),
        some_unresolved(old_t, skip_internal(t, sec, k, count).0, skip_internal(t, sec, k, count).1) == some_unresolved(old_t, t, k),
    decreases count - k,
{
    if k < count && sym_section(t, k) != 0 {
        let t1 = fix_record(t, sec, k);
        let wrote = is_internal(t, k);
        let v = ((le_u32(t, 18 * k + 8) + section_va(sec, sym_section(t, k))) % 0x1_0000_0000) as u32;
        assert(sym_section(t, k) == sym_section(old_t, k));
        lemma_fix_step(get_proc_ex, old_t, t, t1, sec, imports, k, wrote, v);
        if wrote {
            lemma_value_write_layout(t, k, v, count);
            lemma_same_layout_trans(old_t, t, t1, count);
        }
        lemma_skip_fixed(get_proc_ex, old_t, t1, sec, imports, k + 1, count);
    }
}

/// The external symbols among `k .. count`, in record order.
pub open spec fn external_records(t: Seq<u8>, k: int, count: int) -> Seq<int>
    decreases count - k,
{
    if k >= count || k < 0 {
        Seq::empty()
    } else if sym_section(t, k) == 0 {
        seq![k] + external_records(t, k + 1, count)
    } else {
        external_records(t, k + 1, count)
    }
}

/// Whether one of the first `n` answers is 0.
pub open spec fn zero_among(ans: Seq<u32>, n: int) -> bool {
    exists|j: int| 0 <= j < n && ans[j] == 0
}

/// Lookups of the names of records `ex` of `t`, in order.
pub open spec fn lookups(t: Seq<u8>, ex: Seq<int>) -> Seq<SymFixAction> {
    ex.map_values(|e: int| SymFixAction::LookUp { name: sym_name(t, 18 * e) })
}

/// The actions a fixup in state `st` on table `t` gives, for at most `fuel`
/// more steps, when its lookups are answered `ans[0]`, `ans[1]`, ...
pub open spec fn sym_fix_run(t: Seq<u8>, sec: Seq<u8>, count: int, st: SymFixState, ans: Seq<u32>, fuel: nat) -> Seq<SymFixAction>
    decreases fuel,
{
    if fuel == 0 || !st.awaiting || ans.len() == 0 {
        Seq::empty()
    } else {
        let r = sym_fix_next(t, sec, count, st, ans[0]);
        seq![r.2] + sym_fix_run(r.0, sec, count, r.1, ans.drop_first(), (fuel - 1) as nat)
    }
}

proof fn lemma_ext_skip(t: Seq<u8>, k: int, e: int, count: int)
    requires
        0 <= k <= e <= count,
        forall|j: int| k <= j < e ==> sym_section(t, j) != 0,
        e < count ==> sym_section(t, e) == 0,
    ensures
        external_records(t, k, count) == (if e < count { seq![e] + external_records(t, e + 1, count) } else { Seq::<int>::empty() }),
    decreases e - k,
{
    if k < e {
        lemma_ext_skip(t, k + 1, e, count);
    }
}

proof fn lemma_ext_len(t: Seq<u8>, k: int, count: int)
    requires
        0 <= k <= count,
    ensures
        external_records(t, k, count).len() <= count - k,
    decreases count - k,
{
    if k < count {
        lemma_ext_len(t, k + 1, count);
    }
}

proof fn lemma_zero_among_split(ans: Seq<u32>, m: int)
    requires
        0 <= m,
        ans.len() >= 1 + m,
    ensures
        zero_among(ans, 1 + m) == (ans[0] == 0 || zero_among(ans.drop_first(), m)),
{
    if zero_among(ans, 1 + m) {
        let j = choose|j: int| 0 <= j < 1 + m && ans[j] == 0;
        if j > 0 {
            assert(ans.drop_first()[j - 1] == 0);
        }
    }
    if zero_among(ans.drop_first(), m) {
        let j = choose|j: int| 0 <= j < m && ans.drop_first()[j] == 0;
        assert(ans[j + 1] == 0);
    }
}

/// One step from a fixup awaiting the lookup of external symbol `e`.
proof fn lemma_next_awaiting(old_t: Seq<u8>, t: Seq<u8>, sec: Seq<u8>, count: int, e: int, rv: u32, a0: u32)
    requires
        0 <= e < count <= u32::MAX,
        18 * count <= old_t.len(),
        same_layout(old_t, t, count),
    ensures
        ({
            let r = sym_fix_next(t, sec, count, SymFixState { next: e as u32, retval: rv, awaiting: true }, a0);
            &&& same_layout(old_t, r.0, count)
            &&& r.1.retval == (if a0 == 0 { 0u32 } else { rv })
            &&& r.1.awaiting ==> e < r.1.next < count && sym_section(old_t, r.1.next as int) == 0
                && r.2 == (SymFixAction::LookUp { name: sym_name(old_t, 18 * r.1.next) })
                && external_records(old_t, e + 1, count) == seq![r.1.next as int] + external_records(old_t, r.1.next + 1, count)
            &&& !r.1.awaiting ==> r.2 == (SymFixAction::Done { result: r.1.retval })
                && external_records(old_t, e + 1, count) == Seq::<int>::empty()
        }),
{
    let t1 = put_u32(t, 18 * e + 8, a0);
    lemma_value_write_layout(t, e, a0, count);
    lemma_same_layout_trans(old_t, t, t1, count);
    lemma_skip_layout(t1, sec, e + 1, count);
    let r2 = skip_internal(t1, sec, e + 1, count);
    lemma_same_layout_trans(old_t, t1, r2.0, count);
    assert forall|j: int| e + 1 <= j < r2.1 implies sym_section(old_t, j) != 0 by {
        assert(sym_section(t1, j) == sym_section(old_t, j));
    }
    if r2.1 < count {
        assert(sym_section(t1, r2.1) == sym_section(old_t, r2.1));
        assert(sym_section(r2.0, r2.1) == sym_section(old_t, r2.1));
        assert(sym_name(r2.0, 18 * r2.1) == sym_name(old_t, 18 * r2.1));
    }
    lemma_ext_skip(old_t, e + 1, r2.1, count);
}

#[verifier::rlimit(60)]
proof fn lemma_run_from(old_t: Seq<u8>, t: Seq<u8>, sec: Seq<u8>, count: int, e: int, rv: u32, ans: Seq<u32>, fuel: nat)
    requires
        0 <= e < count <= u32::MAX,
        18 * count <= old_t.len(),
        same_layout(old_t, t, count),
        sym_section(old_t, e) == 0,
        rv == 0 || rv == 1,
        ans.len() >= external_records(old_t, e, count).len(),
        fuel >= external_records(old_t, e, count).len(),
    ensures
        sym_fix_run(t, sec, count, SymFixState { next: e as u32, retval: rv, awaiting: true }, ans, fuel) == lookups(
            old_t, external_records(old_t, e + 1, count)) + seq![SymFixAction::Done {
            result: if rv == 0 || zero_among(ans, external_records(old_t, e, count).len() as int) { 0u32 } else { 1u32 },
        }],
    decreases count - e,
{
    let st = SymFixState { next: e as u32, retval: rv, awaiting: true };
    let ex = external_records(old_t, e, count);
    let ex1 = external_records(old_t, e + 1, count);
    assert(ex == seq![e] + ex1);
    let a0 = ans[0];
    let rv1 = if a0 == 0 { 0u32 } else { rv };
    let r = sym_fix_next(t, sec, count, st, a0);
    lemma_next_awaiting(old_t, t, sec, count, e, rv, a0);
    assert(sym_fix_run(t, sec, count, st, ans, fuel) == seq![r.2] + sym_fix_run(r.0, sec, count, r.1, ans.drop_first(), (fuel - 1) as nat));
    let done_rv = if rv == 0 || zero_among(ans, ex.len() as int) { 0u32 } else { 1u32 };
    lemma_zero_among_split(ans, ex1.len() as int);
    if r.1.awaiting {
        let e2 = r.1.next as int;
        let ex3 = external_records(old_t, e2 + 1, count);
        assert(ex1 == seq![e2] + ex3);
        lemma_ext_skip(old_t, e2, e2, count);
        lemma_run_from(old_t, r.0, sec, count, e2, rv1, ans.drop_first(), (fuel - 1) as nat);
        assert(lookups(old_t, ex1) =~= seq![SymFixAction::LookUp { name: sym_name(old_t, 18 * e2) }] + lookups(old_t, ex3));
        assert(sym_fix_run(t, sec, count, st, ans, fuel) =~= lookups(old_t, ex1) + seq![SymFixAction::Done { result: done_rv }]);
    } else {
        assert(!zero_among(ans.drop_first(), 0));
        assert(sym_fix_run(r.0, sec, count, r.1, ans.drop_first(), (fuel - 1) as nat) == Seq::<SymFixAction>::empty());
        assert(lookups(old_t, ex1) =~= Seq::<SymFixAction>::empty());
        assert(sym_fix_run(t, sec, count, st, ans, fuel) =~= lookups(old_t, ex1) + seq![SymFixAction::Done { result: done_rv }]);
    }
}

/// A whole symbol fixup asks for one lookup per external symbol, in record
/// order, each by that symbol's name, and then gives its result: 0 when some
/// lookup answered 0, else 1.
pub proof fn law_sym_fix_lookup_order(t: Seq<u8>, sec: Seq<u8>, sym_count: u32, ans: Seq<u32>)
    requires
        18 * sym_count <= t.len(),
        ans.len() >= external_records(t, 0, sym_count as int).len(),
    ensures
        ({
            let start = sym_fix_next(t, sec, sym_count as int, sym_fix_init(), 0);
            let ex = external_records(t, 0, sym_count as int);
            seq![start.2] + sym_fix_run(start.0, sec, sym_count as int, start.1, ans, sym_count as nat) == lookups(t, ex)
                + seq![SymFixAction::Done { result: if zero_among(ans, ex.len() as int) { 0u32 } else { 1u32 } }]
        }),
{
    let count = sym_count as int;
    let start = sym_fix_next(t, sec, count, sym_fix_init(), 0);
    let ex = external_records(t, 0, count);
    lemma_skip_layout(t, sec, 0, count);
    let r = skip_internal(t, sec, 0, count);
    lemma_ext_skip(t, 0, r.1, count);
    let res = if zero_among(ans, ex.len() as int) { 0u32 } else { 1u32 };
    if r.1 < count {
        assert(sym_section(r.0, r.1) == sym_section(t, r.1));
        assert(sym_name(r.0, 18 * r.1) == sym_name(t, 18 * r.1));
        lemma_ext_skip(t, r.1, r.1, count);
        lemma_ext_len(t, r.1, count);
        assert(same_layout(t, t, count));
        lemma_run_from(t, r.0, sec, count, r.1, 1, ans, count as nat);
        assert(lookups(t, ex) =~= seq![SymFixAction::LookUp { name: sym_name(t, 18 * r.1) }] + lookups(t, external_records(t, r.1 + 1, count)));
        assert(seq![start.2] + sym_fix_run(start.0, sec, count, start.1, ans, sym_count as nat) =~= lookups(t, ex)
            + seq![SymFixAction::Done { result: res }]);
    } else {
        assert(!zero_among(ans, 0));
        assert(sym_fix_run(start.0, sec, count, start.1, ans, sym_count as nat) == Seq::<SymFixAction>::empty());
        assert(lookups(t, ex) =~= Seq::<SymFixAction>::empty());
        assert(seq![start.2] + sym_fix_run(start.0, sec, count, start.1, ans, sym_count as nat) =~= lookups(t, ex)
            + seq![SymFixAction::Done { result: res }]);
    }
}

/// Fix up `sym_count` symbol records in `table`: resolve each external symbol
/// through `get_proc_ex` (given its name and `imports`), add the section's
/// virtual address from the headers in `sec` to each internal one. Returns 1,
/// or 0 when some external symbol resolved to 0. The calls are those of a
/// symbol fixup (see [`law_sym_fix_lookup_order`]): one lookup per external
/// symbol, in record order.
pub fn fix_coff_symbols<F: Fn(SymName, u32) -> u32>(
    table: &mut [u8],
    sec: &[u8],
    sym_count: u32,
    imports: u32,
    get_proc_ex: F,
) -> (r: u32)
    requires
        18 * sym_count <= old(table)@.len(),
        sections_present(old(table)@, sec@, sym_count as int),
        forall|n: SymName| call_requires(get_proc_ex, (n, imports)),
    ensures
        symbols_fixed(get_proc_ex, old(table)@, final(table)@, sec@, imports, sym_count as int),
        r == (if some_unresolved(old(table)@, final(table)@, sym_count as int) { 0u32 } else { 1u32 }),
{
    let ghost old_t = table@;
    let ghost count = sym_count as int;
    proof {
        assert(same_layout(old_t, old_t, count));
        assert forall|j: int| 0 <= j < old_t.len() && !in_value_field(j, 0) implies #[trigger] old_t[j] == old_t[j] by {}
        assert(symbols_fixed(get_proc_ex, old_t, old_t, sec@, imports, 0));
        assert(!some_unresolved(old_t, old_t, 0));
        lemma_skip_fixed(get_proc_ex, old_t, old_t, sec@, imports, 0, count);
        lemma_skip_layout(old_t, sec@, 0, count);
    }
    let (mut st, mut act) = sym_fix_begin(table, sec, sym_count);
    proof {
        lemma_layout_sections(old_t, table@, sec@, count);
    }
    loop
        invariant
            count == sym_count,
            18 * sym_count <= old_t.len(),
            old_t == old(table)@,
            forall|n: SymName| call_requires(get_proc_ex, (n, imports)),
            same_layout(old_t, table@, count),
            sections_present(old_t, sec@, count),
            sections_present(table@, sec@, count),
            st.next <= sym_count,
            st.awaiting ==> st.next < sym_count && sym_section(old_t, st.next as int) == 0
                && act == (SymFixAction::LookUp { name: sym_name(old_t, 18 * st.next) }),
            !st.awaiting ==> st.next == sym_count && act == (SymFixAction::Done { result: st.retval }),
            symbols_fixed(get_proc_ex, old_t, table@, sec@, imports, st.next as int),
            st.retval == (if some_unresolved(old_t, table@, st.next as int) { 0u32 } else { 1u32 }),
        decreases sym_count - st.next + (if st.awaiting { 1int } else { 0int }),
    {
        match act {
            SymFixAction::LookUp { name } => {
                let v = get_proc_ex(name, imports);
                let ghost t0 = table@;
                let ghost e = st.next as int;
                let (s, a) = sym_fix_step(table, sec, sym_count, st, v);
                proof {
                    let t1 = put_u32(t0, 18 * e + 8, v);
                    assert(18 * e + 18 <= 18 * count);
                    lemma_le_u32_put(t0, 18 * e + 8, v);
                    assert(sym_section(t0, e) == sym_section(old_t, e));
                    assert(sym_name(t0, 18 * e) == sym_name(old_t, 18 * e));
                    lemma_fix_step(get_proc_ex, old_t, t0, t1, sec@, imports, e, true, v);
                    lemma_value_write_layout(t0, e, v, count);
                    lemma_same_layout_trans(old_t, t0, t1, count);
                    lemma_skip_fixed(get_proc_ex, old_t, t1, sec@, imports, e + 1, count);
                    lemma_skip_layout(t1, sec@, e + 1, count);
                    lemma_same_layout_trans(old_t, t1, table@, count);
                    lemma_layout_sections(old_t, table@, sec@, count);
                    let e2 = skip_internal(t1, sec@, e + 1, count).1;
                    if e2 < count {
                        assert(sym_section(table@, e2) == sym_section(old_t, e2));
                        assert(sym_section(t1, e2) == sym_section(old_t, e2));
                        assert(sym_name(table@, 18 * e2) == sym_name(old_t, 18 * e2));
                    }
                }
                st = s;
                act = a;
            },
            SymFixAction::Done { result } => {
                return result;
            },
        }
    }
}

} // verus!
