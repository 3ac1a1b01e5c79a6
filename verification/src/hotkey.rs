//! Keyboard hotkey modifier-field test.

use vstd::prelude::*;

verus! {

/// Number of defined modifier predicates.
pub const HOTKEY_TESTS_NUM: u8 = 5;

/// Differential PRNG seed of the hotkey corpus.
pub const HOTKEY_DO_TEST_PRNG_SEED: u32 = 0x4355_4245;

/// Predicate `test_id` on a 2-bit modifier field (`bit0` left key, `bit1` right key):
/// `0` neither, `1` exactly one, `2` both, `3` left only, `4` right only.
pub open spec fn spec_hotkey_predicate(test_id: u32, field: u32) -> bool {
    if test_id == 0 {
        field == 0
    } else if test_id == 1 {
        field == 1 || field == 2
    } else if test_id == 2 {
        field == 3
    } else if test_id == 3 {
        field == 1
    } else {
        field == 2
    }
}

/// Test id nibble selected by `cl` from `funcs` (shift by `2 * cl`, byte arithmetic).
pub open spec fn spec_hotkey_test_id(funcs: u32, cl: u32) -> u32 {
    let c = cl % 256;
    (funcs >> ((((2 * c) % 256) % 32) as u32)) & 15
}

/// Modifier field selected by `cl` from `kb_state`.
pub open spec fn spec_hotkey_field(kb_state: u32, cl: u32) -> u32 {
    (kb_state >> (((cl % 256) % 32) as u32)) & 3
}

/// `0` when the hotkey's modifier test passes, `1` when it fails (unknown test ids fail).
pub open spec fn spec_hotkey_do_test(funcs: u32, kb_state: u32, cl: u32) -> u32 {
    let id = spec_hotkey_test_id(funcs, cl);
    if id >= 5 {
        1
    } else if spec_hotkey_predicate(id, spec_hotkey_field(kb_state, cl)) {
        0
    } else {
        1
    }
}

fn hotkey_test0(al: u8) -> (r: u8)
    ensures r == (if al == 0 { 1u8 } else { 0u8 }),
{
    if al == 0 { 1 } else { 0 }
}

fn hotkey_test1(al: u8) -> (r: u8)
    ensures r == (if al == 1 || al == 2 { 1u8 } else { 0u8 }),
{
    if al == 1 || al == 2 { 1 } else { 0 }
}

fn hotkey_test2(al: u8) -> (r: u8)
    ensures r == (if al == 3 { 1u8 } else { 0u8 }),
{
    if al == 3 { 1 } else { 0 }
}

fn hotkey_test3(al: u8) -> (r: u8)
    ensures r == (if al == 1 { 1u8 } else { 0u8 }),
{
    if al == 1 { 1 } else { 0 }
}

fn hotkey_test4(al: u8) -> (r: u8)
    ensures r == (if al == 2 { 1u8 } else { 0u8 }),
{
    if al == 2 { 1 } else { 0 }
}

/// Select among the five predicates by summing indicator-weighted results.
fn run_predicate(test_id: u8, field: u8) -> (r: u8)
    requires
        test_id < 5,
    ensures
        r == (if spec_hotkey_predicate(test_id as u32, field as u32) { 1u8 } else { 0u8 }),
{
    let t0 = hotkey_test0(field);
    let t1 = hotkey_test1(field);
    let t2 = hotkey_test2(field);
    let t3 = hotkey_test3(field);
    let t4 = hotkey_test4(field);
    let s0: u8 = if test_id == 0 { t0 } else { 0 };
    let s1: u8 = if test_id == 1 { t1 } else { 0 };
    let s2: u8 = if test_id == 2 { t2 } else { 0 };
    let s3: u8 = if test_id == 3 { t3 } else { 0 };
    let s4: u8 = if test_id == 4 { t4 } else { 0 };
    s0 + s1 + s2 + s3 + s4
}

/// Hotkey modifier test: `cl` (0 / 2 / 4) picks the Shift / Control / Alt field
/// of `kb_state` and the matching test-id nibble of `funcs`.
pub fn hotkey_do_test(funcs: u32, kb_state: u32, cl: u32) -> (r: u32)
    ensures
        r == spec_hotkey_do_test(funcs, kb_state, cl),
{
    let cl8: u8 = (cl & 0xFF) as u8;
    let shifted_state = kb_state >> ((cl8 as u32) % 32);
    let cl_doubled: u8 = cl8.wrapping_add(cl8);
    let test_id_w = (funcs >> ((cl_doubled as u32) % 32)) & 15;
    assert(test_id_w < 16) by (bit_vector)
        requires test_id_w == (funcs >> ((cl_doubled as u32) % 32)) & 15;
    let test_id = test_id_w as u8;
    assert(cl8 as int == cl % 256) by (bit_vector)
        requires cl8 == (cl & 0xFF) as u8;
    if test_id >= HOTKEY_TESTS_NUM {
        return 1;
    }
    let field: u8 = ((shifted_state & 0xFF) as u8) & 3;
    assert(field as u32 == shifted_state & 3) by (bit_vector)
        requires field == ((shifted_state & 0xFF) as u8) & 3;
    let pred = run_predicate(test_id, field);
    if pred != 1 { 1 } else { 0 }
}

} // verus!
