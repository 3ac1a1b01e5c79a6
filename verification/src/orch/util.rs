//! Locating external programs: configured tools and a Python interpreter.

use vstd::prelude::*;
use vstd::string::*;
use crate::orch::paths::{join_path, resolve};
use crate::orch::text::{starts_with, str_eq};

verus! {

/// What a finished command reported.
pub struct CmdResult {
    pub status: i32,
    pub stdout: String,
    pub stderr: String,
}

/// Whether some call of `f` on a text equal to `arg` gave `res`.
pub open spec fn answered<F: Fn(&str) -> R, R>(f: F, arg: Seq<char>, res: R) -> bool {
    exists|q: &str| q@ == arg && call_ensures(f, (q,), res)
}

/// Whether a path is absolute (begins with `/`).
pub open spec fn is_absolute(p: Seq<char>) -> bool {
    p.len() > 0 && p[0] == '/'
}

/// Find a configured tool: an absolute path counts when it is a file; a
/// relative one is tried under `root`, then looked up on the search path.
/// `is_file` tells whether a path names a file, `which_on_path` searches `PATH`.
pub fn resolve_tool<F: Fn(&str) -> bool, G: Fn(&str) -> Option<String>>(
    configured: &str,
    root: &str,
    is_file: F,
    which_on_path: G,
) -> (r: Option<String>)
    requires
        forall|q: &str| call_requires(is_file, (q,)),
        forall|q: &str| call_requires(which_on_path, (q,)),
    ensures
        is_absolute(configured@) ==> match r {
            Some(p) => p@ == configured@ && answered(is_file, configured@, true),
            None => answered(is_file, configured@, false),
        },
        !is_absolute(configured@) ==> match r {
            Some(p) => (p@ == join_path(root@, configured@) && answered(is_file, join_path(root@, configured@), true))
                || (answered(is_file, join_path(root@, configured@), false)
                    && answered(which_on_path, configured@, Some(p))),
            None => answered(is_file, join_path(root@, configured@), false)
                && answered(which_on_path, configured@, None::<String>),
        },
{
    proof {
        reveal_strlit("/");
        assert("/"@ =~= seq!['/']);
        if configured@.len() > 0 {
            assert(configured@.subrange(0, 1) =~= seq![configured@[0]]);
        }
    }
    let abs = starts_with(configured, "/");
    proof {
        if abs {
            assert(configured@.subrange(0, 1)[0] == configured@[0]);
        }
    }
    assert(abs == is_absolute(configured@));
    if abs {
        if is_file(configured) {
            return Some(String::from_str(configured));
        }
        return None;
    }
    let from_root = resolve(root, configured);
    if is_file(from_root.as_str()) {
        return Some(from_root);
    }
    which_on_path(configured)
}

/// The interpreters tried, in order: `preferred`, then `python3` and `py`
/// (each skipped when it is `preferred`).
pub open spec fn python_candidates(preferred: Seq<char>) -> Seq<Seq<char>> {
    seq![preferred]
        + (if "python3"@ == preferred { Seq::empty() } else { seq!["python3"@] })
        + (if "py"@ == preferred { Seq::empty() } else { seq!["py"@] })
}

/// Find a Python interpreter on the search path: the first candidate (see
/// [`python_candidates`]) that `which_on_path` finds.
pub fn find_python<G: Fn(&str) -> Option<String>>(preferred: &str, which_on_path: G) -> (r: Option<String>)
    requires
        forall|q: &str| call_requires(which_on_path, (q,)),
    ensures
        match r {
            Some(p) => exists|i: int| 0 <= i < python_candidates(preferred@).len()
                && answered(which_on_path, python_candidates(preferred@)[i], Some(p))
                && forall|j: int| 0 <= j < i ==> answered(which_on_path, #[trigger] python_candidates(preferred@)[j], None::<String>),
            None => forall|j: int| 0 <= j < python_candidates(preferred@).len()
                ==> answered(which_on_path, #[trigger] python_candidates(preferred@)[j], None::<String>),
        },
{
    let ghost c = python_candidates(preferred@);
    match which_on_path(preferred) {
        Some(p) => {
            assert(c[0] == preferred@);
            return Some(p);
        },
        None => {},
    }
    assert(answered(which_on_path, c[0], None::<String>));
    let skip3 = str_eq("python3", preferred);
    let mut found: Option<String> = None;
    if !skip3 {
        found = which_on_path("python3");
        assert(c[1] == "python3"@);
        match found {
            Some(p) => {
                return Some(p);
            },
            None => {},
        }
    }
    let ghost k: int = if skip3 { 1 } else { 2 };
    assert(forall|j: int| 0 <= j < k ==> answered(which_on_path, #[trigger] c[j], None::<String>));
    if !str_eq("py", preferred) {
        assert(c[k] == "py"@);
        match which_on_path("py") {
            Some(p) => {
                return Some(p);
            },
            None => {},
        }
        assert(c.len() == k + 1);
    } else {
        assert(c.len() == k);
    }
    None
}

} // verus!
