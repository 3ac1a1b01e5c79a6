//! Ordering texts by character code (the order of `str`'s `<`), and sorting
//! name lists with or without repeats.

use vstd::prelude::*;
use vstd::string::*;
use crate::orch::qemu::texts;

verus! {

broadcast use vstd::seq_lib::to_multiset_insert;

/// `a` comes before `b`: at the first difference `a` has the smaller
/// character, or `a` is a proper prefix of `b`.
pub open spec fn text_lt(a: Seq<char>, b: Seq<char>) -> bool
    decreases a.len(),
{
    if a.len() == 0 {
        b.len() > 0
    } else if b.len() == 0 {
        false
    } else if a[0] != b[0] {
        a[0] < b[0]
    } else {
        text_lt(a.drop_first(), b.drop_first())
    }
}

proof fn lemma_lt_irreflexive(a: Seq<char>)
    ensures
        !text_lt(a, a),
    decreases a.len(),
{
    if a.len() > 0 {
        lemma_lt_irreflexive(a.drop_first());
    }
}

proof fn lemma_lt_total(a: Seq<char>, b: Seq<char>)
    ensures
        text_lt(a, b) || text_lt(b, a) || a == b,
        !(text_lt(a, b) && text_lt(b, a)),
    decreases a.len(),
{
    if a.len() > 0 && b.len() > 0 {
        lemma_lt_total(a.drop_first(), b.drop_first());
        if a[0] == b[0] && a.drop_first() == b.drop_first() {
            assert(a =~= seq![a[0]] + a.drop_first());
            assert(b =~= seq![b[0]] + b.drop_first());
        }
    } else if a.len() == 0 && b.len() == 0 {
        assert(a =~= b);
    }
}

proof fn lemma_lt_transitive(a: Seq<char>, b: Seq<char>, c: Seq<char>)
    requires
        text_lt(a, b),
        text_lt(b, c),
    ensures
        text_lt(a, c),
    decreases a.len(),
{
    if a.len() > 0 && b.len() > 0 && c.len() > 0 && a[0] == b[0] && b[0] == c[0] {
        lemma_lt_transitive(a.drop_first(), b.drop_first(), c.drop_first());
    }
}

/// Whether `a` comes before `b` (see [`text_lt`]).
pub fn text_less(a: &str, b: &str) -> (r: bool)
    ensures
        r == text_lt(a@, b@),
{
    let n = a.unicode_len();
    let m = b.unicode_len();
    let mut i: usize = 0;
    assert(a@.skip(0) =~= a@ && b@.skip(0) =~= b@);
    while i < n && i < m
        invariant
            n == a@.len(),
            m == b@.len(),
            i <= n,
            i <= m,
            text_lt(a@, b@) == text_lt(a@.skip(i as int), b@.skip(i as int)),
        decreases n - i,
    {
        let x = a.get_char(i);
        let y = b.get_char(i);
        assert(a@.skip(i as int)[0] == x && b@.skip(i as int)[0] == y);
        if x != y {
            return x < y;
        }
        assert(a@.skip(i as int).drop_first() =~= a@.skip(i as int + 1));
        assert(b@.skip(i as int).drop_first() =~= b@.skip(i as int + 1));
        i = i + 1;
    }
    i == n && i < m
}

proof fn lemma_push_to_set(s: Seq<Seq<char>>, x: Seq<char>)
    ensures
        s.push(x).to_set() == s.to_set().insert(x),
{
    assert forall|t: Seq<char>| s.push(x).to_set().contains(t) <==> s.to_set().insert(x).contains(t) by {
        if s.push(x).to_set().contains(t) {
            let k = choose|k: int| 0 <= k < s.push(x).len() && s.push(x)[k] == t;
            if k < s.len() {
                assert(s[k] == t);
            }
        }
        if s.to_set().contains(t) {
            let k = choose|k: int| 0 <= k < s.len() && s[k] == t;
            assert(s.push(x)[k] == t);
        }
        if t == x {
            assert(s.push(x)[s.len() as int] == t);
        }
    }
    assert(s.push(x).to_set() =~= s.to_set().insert(x));
}

/// Each text is at most the next (repeats allowed).
pub open spec fn ascending(s: Seq<Seq<char>>) -> bool {
    forall|i: int, j: int| 0 <= i < j < s.len() ==> !text_lt(#[trigger] s[j], #[trigger] s[i])
}

/// Each text comes strictly before the next.
pub open spec fn strictly_ascending(s: Seq<Seq<char>>) -> bool {
    forall|i: int, j: int| 0 <= i < j < s.len() ==> text_lt(#[trigger] s[i], #[trigger] s[j])
}

/// The position of the first element of the ascending `v` that `x` does not
/// come after (or the length).
fn insertion_point(v: &Vec<String>, x: &str) -> (p: usize)
    requires
        ascending(texts(v@)),
    ensures
        p <= v@.len(),
        forall|k: int| 0 <= k < p ==> text_lt(#[trigger] texts(v@)[k], x@),
        p < v@.len() ==> !text_lt(texts(v@)[p as int], x@),
{
    let mut p: usize = 0;
    while p < v.len()
        invariant
            p <= v@.len(),
            forall|k: int| 0 <= k < p ==> text_lt(#[trigger] texts(v@)[k], x@),
        decreases v.len() - p,
    {
        if !text_less(v[p].as_str(), x) {
            return p;
        }
        p = p + 1;
    }
    p
}

/// `v` sorted ascending, repeats kept.
pub fn sort_texts(v: &Vec<String>) -> (out: Vec<String>)
    ensures
        ascending(texts(out@)),
        texts(out@).to_multiset() == texts(v@).to_multiset(),
{
    let mut out: Vec<String> = Vec::new();
    let mut i: usize = 0;
    assert(texts(out@) =~= texts(v@).subrange(0, 0));
    while i < v.len()
        invariant
            i <= v@.len(),
            ascending(texts(out@)),
            texts(out@).to_multiset() == texts(v@).subrange(0, i as int).to_multiset(),
        decreases v.len() - i,
    {
        let x = v[i].as_str();
        let p = insertion_point(&out, x);
        let ghost before = texts(out@);
        out.insert(p, String::from_str(x));
        proof {
            let after = texts(out@);
            assert(after =~= before.insert(p as int, x@));
            assert(texts(v@).subrange(0, i as int + 1) =~= texts(v@).subrange(0, i as int).push(x@));
            assert(texts(v@).subrange(0, i as int).push(x@)
                =~= texts(v@).subrange(0, i as int).insert(i as int, x@));
            assert forall|a: int, b: int| 0 <= a < b < after.len() implies !text_lt(#[trigger] after[b], #[trigger] after[a]) by {
                if a < p && b == p {
                    lemma_lt_total(before[a], x@);
                } else if a < p && b > p {
                    assert(after[b] == before[b - 1]);
                    lemma_lt_total(before[a], before[b - 1]);
                } else if a == p {
                    assert(after[b] == before[b - 1]);
                    if b - 1 > p {
                        lemma_lt_total(before[p as int], before[b - 1]);
                        if text_lt(before[b - 1], x@) {
                            if text_lt(before[p as int], before[b - 1]) {
                                lemma_lt_transitive(before[p as int], before[b - 1], x@);
                            }
                        }
                    }
                } else if a > p {
                    assert(after[a] == before[a - 1]);
                    assert(after[b] == before[b - 1]);
                }
            }
        }
        i = i + 1;
    }
    assert(texts(v@).subrange(0, i as int) =~= texts(v@));
    out
}

/// `v` sorted ascending with repeats dropped.
pub fn sort_unique_texts(v: &Vec<String>) -> (out: Vec<String>)
    ensures
        strictly_ascending(texts(out@)),
        texts(out@).to_set() == texts(v@).to_set(),
{
    let mut out: Vec<String> = Vec::new();
    let mut i: usize = 0;
    assert(texts(out@).to_set() =~= texts(v@).subrange(0, 0).to_set());
    while i < v.len()
        invariant
            i <= v@.len(),
            strictly_ascending(texts(out@)),
            texts(out@).to_set() == texts(v@).subrange(0, i as int).to_set(),
        decreases v.len() - i,
    {
        let x = v[i].as_str();
        proof {
            assert(ascending(texts(out@))) by {
                assert forall|a: int, b: int| 0 <= a < b < texts(out@).len() implies !text_lt(#[trigger] texts(out@)[b], #[trigger] texts(out@)[a]) by {
                    lemma_lt_total(texts(out@)[a], texts(out@)[b]);
                }
            }
        }
        let p = insertion_point(&out, x);
        let ghost before = texts(out@);
        let ghost pre = texts(v@).subrange(0, i as int);
        assert(texts(v@).subrange(0, i as int + 1) =~= pre.push(x@));
        if p < out.len() && !text_less(x, out[p].as_str()) {
            proof {
                lemma_lt_total(before[p as int], x@);
                assert(before[p as int] == x@);
                assert(before.to_set().contains(x@));
                lemma_push_to_set(pre, x@);
                assert(pre.to_set().insert(x@) =~= pre.to_set());
            }
        } else {
            out.insert(p, String::from_str(x));
            proof {
                let after = texts(out@);
                assert(after =~= before.insert(p as int, x@));
                assert(after.to_set() =~= before.to_set().insert(x@)) by {
                    assert forall|t: Seq<char>| after.to_set().contains(t) <==> before.to_set().insert(x@).contains(t) by {
                        if after.to_set().contains(t) {
                            let k = choose|k: int| 0 <= k < after.len() && after[k] == t;
                            if k < p {
                                assert(before[k] == t);
                            } else if k > p {
                                assert(before[k - 1] == t);
                            }
                        }
                        if before.to_set().contains(t) {
                            let k = choose|k: int| 0 <= k < before.len() && before[k] == t;
                            if k < p {
                                assert(after[k] == t);
                            } else {
                                assert(after[k + 1] == t);
                            }
                        }
                        if t == x@ {
                            assert(after[p as int] == t);
                        }
                    }
                }
                lemma_push_to_set(pre, x@);
                assert forall|a: int, b: int| 0 <= a < b < after.len() implies text_lt(#[trigger] after[a], #[trigger] after[b]) by {
                    if a < p && b == p {
                    } else if a < p && b > p {
                        assert(after[b] == before[b - 1]);
                    } else if a == p {
                        assert(after[b] == before[b - 1]);
                        lemma_lt_total(before[p as int], x@);
                        if b - 1 > p {
                            lemma_lt_transitive(x@, before[p as int], before[b - 1]);
                        }
                    } else if a > p {
                        assert(after[a] == before[a - 1]);
                        assert(after[b] == before[b - 1]);
                    }
                }
            }
        }
        i = i + 1;
    }
    assert(texts(v@).subrange(0, i as int) =~= texts(v@));
    out
}

} // verus!
