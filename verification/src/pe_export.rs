//! PE export directory: look an exported procedure up by name.
//!
//! Memory is a flat arena standing for addresses from `os_base` on; address
//! `A` is byte `(A - os_base) mod 2^32` of the arena.

use vstd::prelude::*;
use crate::le::{le_u32, read_u32_le};
use crate::wrap::{mod32, lemma_wadd32, lemma_wsub32, lemma_wmul32};

verus! {

/// Seed of the pseudo-random lookup corpus (`'GPEX'`).
pub const GET_PROC_EX_PRNG_SEED: u32 = 0x4750_4558;

/// Kernel base address.
pub const OS_BASE: u32 = 0x8000_0000;

/// Offset of `NumberOfNames` in the export directory.
pub const OFF_NUMBER_OF_NAMES: usize = 24;

/// Offset of `AddressOfFunctions`.
pub const OFF_ADDRESS_OF_FUNCTIONS: usize = 28;

/// Offset of `AddressOfNames`.
pub const OFF_ADDRESS_OF_NAMES: usize = 32;

/// Length of the name comparison (`strncmp(.., 256)`).
pub const NAME_CMP_LEN: u32 = 256;

/// Arena offset of address `abs`.
pub open spec fn arena_off(base: u32, abs: u32) -> int {
    mod32(abs - base) as int
}

/// The dword at address `abs`.
pub open spec fn arena_u32(arena: Seq<u8>, base: u32, abs: u32) -> u32 {
    le_u32(arena, arena_off(base, abs))
}

/// The dword at address `abs` lies in the arena.
pub open spec fn arena_u32_ok(arena: Seq<u8>, base: u32, abs: u32) -> bool {
    arena_off(base, abs) + 4 <= arena.len()
}

/// `strncmp(name at address name_abs, query, 256) == 0` from position `i` on.
pub open spec fn export_name_eq_from(arena: Seq<u8>, base: u32, name_abs: u32, q: Seq<u8>, i: int) -> bool
    decreases 256 - i,
{
    if i >= 256 {
        true
    } else {
        let ca = arena[arena_off(base, mod32(name_abs + i))];
        if ca != q[i] {
            false
        } else if ca == 0 {
            true
        } else {
            export_name_eq_from(arena, base, name_abs, q, i + 1)
        }
    }
}

/// Every byte that comparison looks at is present.
pub open spec fn export_name_readable_from(arena: Seq<u8>, base: u32, name_abs: u32, q: Seq<u8>, i: int) -> bool
    decreases 256 - i,
{
    if i >= 256 {
        true
    } else {
        let off = arena_off(base, mod32(name_abs + i));
        &&& off < arena.len()
        &&& i < q.len()
        &&& (arena[off] != q[i] || arena[off] == 0 || export_name_readable_from(arena, base, name_abs, q, i + 1))
    }
}

/// Address of entry `esi` of a table at `rva`.
pub open spec fn table_entry(base: u32, rva: u32, esi: int) -> u32 {
    mod32(mod32(base + rva) + mod32(esi * 4))
}

/// Whether name `esi` of the table at `names` equals the query.
#[verifier::opaque]
pub open spec fn probe_eq(arena: Seq<u8>, base: u32, names: u32, q: Seq<u8>, esi: int) -> bool {
    export_name_eq_from(arena, base, mod32(base + arena_u32(arena, base, table_entry(base, names, esi))), q, 0)
}

/// Whether comparing name `esi` only reads present bytes.
#[verifier::opaque]
pub open spec fn probe_readable(arena: Seq<u8>, base: u32, names: u32, q: Seq<u8>, esi: int) -> bool {
    &&& arena_u32_ok(arena, base, table_entry(base, names, esi))
    &&& export_name_readable_from(arena, base, mod32(base + arena_u32(arena, base, table_entry(base, names, esi))), q, 0)
}

/// The function address at index `esi`.
pub open spec fn probe_value(arena: Seq<u8>, base: u32, funcs: u32, esi: int) -> u32 {
    mod32(base + arena_u32(arena, base, table_entry(base, funcs, esi)))
}

/// The name index search from `esi`: the first name equal to the query yields
/// `os_base +` the function RVA at the *same* index; after the last name
/// (at least index 0 is always probed), 0.
pub open spec fn export_search_from(arena: Seq<u8>, base: u32, n: u32, names: u32, funcs: u32, q: Seq<u8>, esi: int) -> u32
    decreases n - esi,
{
    if probe_eq(arena, base, names, q, esi) {
        probe_value(arena, base, funcs, esi)
    } else if esi + 1 >= n {
        0
    } else {
        export_search_from(arena, base, n, names, funcs, q, esi + 1)
    }
}

/// Every read of the search from `esi` lies in the arena (and in the query).
pub open spec fn export_search_ok(arena: Seq<u8>, base: u32, n: u32, names: u32, funcs: u32, q: Seq<u8>, esi: int) -> bool
    decreases n - esi,
{
    &&& probe_readable(arena, base, names, q, esi)
    &&& if probe_eq(arena, base, names, q, esi) {
        arena_u32_ok(arena, base, table_entry(base, funcs, esi))
    } else if esi + 1 >= n {
        true
    } else {
        export_search_ok(arena, base, n, names, funcs, q, esi + 1)
    }
}

/// The directory fields: `NumberOfNames`, `AddressOfNames`, `AddressOfFunctions`.
pub open spec fn export_dir(arena: Seq<u8>, base: u32, imports: u32) -> (u32, u32, u32) {
    (arena_u32(arena, base, mod32(imports + 24)), arena_u32(arena, base, mod32(imports + 32)),
     arena_u32(arena, base, mod32(imports + 28)))
}

/// The lookup: 0 for a null directory, else the search from index 0.
pub open spec fn get_proc_ex_spec(arena: Seq<u8>, base: u32, imports: u32, q: Seq<u8>) -> u32 {
    if imports == 0 {
        0
    } else {
        let d = export_dir(arena, base, imports);
        export_search_from(arena, base, d.0, d.1, d.2, q, 0)
    }
}

/// Every read of the lookup lies in the arena and the query.
pub open spec fn get_proc_ex_ok(arena: Seq<u8>, base: u32, imports: u32, q: Seq<u8>) -> bool {
    imports != 0 ==> {
        let d = export_dir(arena, base, imports);
        &&& arena_u32_ok(arena, base, mod32(imports + 24))
        &&& arena_u32_ok(arena, base, mod32(imports + 32))
        &&& arena_u32_ok(arena, base, mod32(imports + 28))
        &&& export_search_ok(arena, base, d.0, d.1, d.2, q, 0)
    }
}

fn read_abs(arena: &[u8], base: u32, abs: u32) -> (v: u32)
    requires
        arena_u32_ok(arena@, base, abs),
    ensures
        v == arena_u32(arena@, base, abs),
{
    proof {
        lemma_wsub32(abs, base);
    }
    let off = abs.wrapping_sub(base) as usize;
    read_u32_le(arena, off)
}

fn name_matches(arena: &[u8], base: u32, name_abs: u32, proc_name: &[u8]) -> (eq: bool)
    requires
        export_name_readable_from(arena@, base, name_abs, proc_name@, 0),
    ensures
        eq == export_name_eq_from(arena@, base, name_abs, proc_name@, 0),
{
    let mut i: u32 = 0;
    while i < NAME_CMP_LEN
        invariant
            i <= 256,
            export_name_eq_from(arena@, base, name_abs, proc_name@, 0)
                == export_name_eq_from(arena@, base, name_abs, proc_name@, i as int),
            export_name_readable_from(arena@, base, name_abs, proc_name@, i as int),
        decreases 256 - i,
    {
        proof {
            lemma_wadd32(name_abs, i);
            lemma_wsub32(name_abs.wrapping_add(i), base);
        }
        let off = name_abs.wrapping_add(i).wrapping_sub(base) as usize;
        let ca = arena[off];
        let cb = proc_name[i as usize];
        if ca != cb {
            return false;
        }
        if ca == 0 {
            return true;
        }
        i = i + 1;
    }
    true
}

/// Compare name `esi` with the query; on equality also read the function address.
fn probe(arena: &[u8], base: u32, names: u32, funcs: u32, proc_name: &[u8], esi: u32) -> (r: (bool, u32))
    requires
        probe_readable(arena@, base, names, proc_name@, esi as int),
        probe_eq(arena@, base, names, proc_name@, esi as int) ==> arena_u32_ok(arena@, base, table_entry(base, funcs, esi as int)),
    ensures
        r.0 == probe_eq(arena@, base, names, proc_name@, esi as int),
        r.0 ==> r.1 == probe_value(arena@, base, funcs, esi as int),
{
    proof {
        reveal(probe_eq);
        reveal(probe_readable);
        lemma_wmul32(esi, 4);
        lemma_wadd32(base, names);
        lemma_wadd32(base.wrapping_add(names), esi.wrapping_mul(4));
    }
    let name_rva = read_abs(arena, base, base.wrapping_add(names).wrapping_add(esi.wrapping_mul(4)));
    proof {
        lemma_wadd32(base, name_rva);
    }
    let name_abs = base.wrapping_add(name_rva);
    if name_matches(arena, base, name_abs, proc_name) {
        proof {
            lemma_wadd32(base, funcs);
            lemma_wadd32(base.wrapping_add(funcs), esi.wrapping_mul(4));
        }
        let func_rva = read_abs(arena, base, base.wrapping_add(funcs).wrapping_add(esi.wrapping_mul(4)));
        proof {
            lemma_wadd32(base, func_rva);
        }
        (true, base.wrapping_add(func_rva))
    } else {
        (false, 0)
    }
}

/// How many names the search probes: `NumberOfNames`, but index 0 always.
pub open spec fn probe_count(n: u32) -> int {
    if n == 0 { 1 } else { n as int }
}

proof fn lemma_search_least(arena: Seq<u8>, base: u32, n: u32, names: u32, funcs: u32, q: Seq<u8>, k: int)
    requires
        0 <= k < probe_count(n),
    ensures
        forall|i: int|
            k <= i < probe_count(n) && #[trigger] probe_eq(arena, base, names, q, i) && (forall|j: int|
                k <= j < i ==> !probe_eq(arena, base, names, q, j)) ==> export_search_from(arena, base, n, names,
                funcs, q, k) == probe_value(arena, base, funcs, i),
        (forall|j: int| k <= j < probe_count(n) ==> !probe_eq(arena, base, names, q, j)) ==> export_search_from(
            arena,
            base,
            n,
            names,
            funcs,
            q,
            k,
        ) == 0,
    decreases probe_count(n) - k,
{
    if k + 1 < probe_count(n) {
        lemma_search_least(arena, base, n, names, funcs, q, k + 1);
    }
    assert forall|i: int|
        k <= i < probe_count(n) && #[trigger] probe_eq(arena, base, names, q, i) && (forall|j: int|
            k <= j < i ==> !probe_eq(arena, base, names, q, j)) implies export_search_from(arena, base, n, names,
            funcs, q, k) == probe_value(arena, base, funcs, i) by {
        if i > k {
            assert(!probe_eq(arena, base, names, q, k));
        }
    }
    if forall|j: int| k <= j < probe_count(n) ==> !probe_eq(arena, base, names, q, j) {
        assert(!probe_eq(arena, base, names, q, k));
    }
}

/// The lookup is 0 without an export directory; otherwise it answers
/// `os_base +` the function RVA at the least name index (index 0 is probed
/// even when `NumberOfNames` is 0) whose name equals the query under the
/// 256-byte comparison, the name index doubling as the function index, and 0
/// when no probed name matches.
pub proof fn law_export_lookup_least_match(arena: Seq<u8>, base: u32, imports: u32, q: Seq<u8>)
    ensures
        imports == 0 ==> get_proc_ex_spec(arena, base, imports, q) == 0,
        imports != 0 ==> ({
            let d = export_dir(arena, base, imports);
            &&& forall|i: int|
                0 <= i < probe_count(d.0) && #[trigger] probe_eq(arena, base, d.1, q, i) && (forall|j: int|
                    0 <= j < i ==> !probe_eq(arena, base, d.1, q, j)) ==> get_proc_ex_spec(arena, base, imports, q)
                    == probe_value(arena, base, d.2, i)
            &&& (forall|j: int| 0 <= j < probe_count(d.0) ==> !probe_eq(arena, base, d.1, q, j))
                ==> get_proc_ex_spec(arena, base, imports, q) == 0
        }),
{
    if imports != 0 {
        let d = export_dir(arena, base, imports);
        lemma_search_least(arena, base, d.0, d.1, d.2, q, 0);
    }
}

/// Look `proc_name` up in the export directory at address `imports_va`:
/// the function address (`os_base + RVA`) for the first equal name, using the
/// name's index into the function table directly; 0 on a miss or a null directory.
pub fn get_proc_ex_oracle(arena: &[u8], os_base: u32, imports_va: u32, proc_name: &[u8]) -> (r: u32)
    requires
        get_proc_ex_ok(arena@, os_base, imports_va, proc_name@),
    ensures
        r == get_proc_ex_spec(arena@, os_base, imports_va, proc_name@),
{
    if imports_va == 0 {
        return 0;
    }
    proof {
        lemma_wadd32(imports_va, 24);
        lemma_wadd32(imports_va, 32);
        lemma_wadd32(imports_va, 28);
    }
    let number_of_names = read_abs(arena, os_base, imports_va.wrapping_add(OFF_NUMBER_OF_NAMES as u32));
    let names_rva = read_abs(arena, os_base, imports_va.wrapping_add(OFF_ADDRESS_OF_NAMES as u32));
    let funcs_rva = read_abs(arena, os_base, imports_va.wrapping_add(OFF_ADDRESS_OF_FUNCTIONS as u32));
    let mut esi: u32 = 0;
    assert(export_dir(arena@, os_base, imports_va) == (number_of_names, names_rva, funcs_rva));
    loop
        invariant
            esi < number_of_names || esi == 0,
            get_proc_ex_spec(arena@, os_base, imports_va, proc_name@)
                == export_search_from(arena@, os_base, number_of_names, names_rva, funcs_rva, proc_name@, 0),
            export_search_from(arena@, os_base, number_of_names, names_rva, funcs_rva, proc_name@, 0)
                == export_search_from(arena@, os_base, number_of_names, names_rva, funcs_rva, proc_name@, esi as int),
            export_search_ok(arena@, os_base, number_of_names, names_rva, funcs_rva, proc_name@, esi as int),
        decreases number_of_names - esi,
    {
        let (eq, v) = probe(arena, os_base, names_rva, funcs_rva, proc_name, esi);
        if eq {
            return v;
        }
        if esi + 1 >= number_of_names {
            return 0;
        }
        esi = esi + 1;
    }
}

} // verus!
