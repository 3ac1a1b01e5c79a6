//! Workflow scripts under `orch/scripts/`: where they live, which names are
//! valid, and which files are scripts.

use vstd::prelude::*;
use vstd::string::*;
use crate::orch::paths::{join_path, resolve};
use crate::orch::qemu::texts;
use crate::orch::sorting::{ascending, sort_texts};
use crate::orch::text::{contains, contains_text, str_eq};
use crate::orch::tools::{after_last, last_index, lemma_last_index};
use crate::orch::util::answered;

verus! {

/// The scripts directory, relative to the repository root.
pub const SCRIPTS_DIR: &'static str = "orch/scripts";

/// `<root>/orch/scripts`.
pub fn scripts_dir(root: &str) -> (p: String)
    ensures
        p@ == join_path(root@, SCRIPTS_DIR@),
{
    resolve(root, SCRIPTS_DIR)
}

/// Why a script cannot be run.
#[derive(Debug, Clone, PartialEq, Eq)]
pub enum ScriptError {
    /// The name holds `/`, `\` or `..`.
    InvalidName,
    /// No script file at this path.
    NotFound(String),
}

/// A script name must not reach outside the scripts directory.
pub open spec fn valid_script_name(name: Seq<char>) -> bool {
    !contains_text(name, "/"@) && !contains_text(name, "\\"@) && !contains_text(name, ".."@)
}

/// The file of script `name`: `<root>/orch/scripts/<name>.rhai`.
pub open spec fn script_file(root: Seq<char>, name: Seq<char>) -> Seq<char> {
    join_path(join_path(root, SCRIPTS_DIR@), name + ".rhai"@)
}

/// The file of script `name`, which must be a valid name (see
/// [`valid_script_name`]) of an existing file, as `is_file` tells.
pub fn script_path<F: Fn(&str) -> bool>(root: &str, name: &str, is_file: F) -> (r: Result<String, ScriptError>)
    requires
        forall|q: &str| call_requires(is_file, (q,)),
    ensures
        !valid_script_name(name@) ==> r == Err::<String, ScriptError>(ScriptError::InvalidName),
        valid_script_name(name@) ==> match r {
            Ok(p) => p@ == script_file(root@, name@) && answered(is_file, script_file(root@, name@), true),
            Err(ScriptError::NotFound(p)) => p@ == script_file(root@, name@)
                && answered(is_file, script_file(root@, name@), false),
            _ => false,
        },
{
    if contains(name, "/") || contains(name, "\\") || contains(name, "..") {
        return Err(ScriptError::InvalidName);
    }
    let dir = scripts_dir(root);
    let mut file = String::from_str(name);
    file.append(".rhai");
    let path = resolve(dir.as_str(), file.as_str());
    if !is_file(path.as_str()) {
        return Err(ScriptError::NotFound(path));
    }
    Ok(path)
}

/// The script a file name holds: its stem, when the name ends in `.rhai`
/// after a non-empty stem.
pub open spec fn script_stem(f: Seq<char>) -> Option<Seq<char>> {
    let k = last_index(f, '.', f.len() as int);
    if k > 0 && f.subrange(k + 1, f.len() as int) == "rhai"@ {
        Some(f.subrange(0, k))
    } else {
        None
    }
}

/// The stems of the script files among `files`, in order.
pub open spec fn script_stems(files: Seq<Seq<char>>) -> Seq<Seq<char>>
    decreases files.len(),
{
    if files.len() == 0 {
        Seq::empty()
    } else {
        let rest = script_stems(files.drop_last());
        match script_stem(files.last()) {
            Some(s) => rest.push(s),
            None => rest,
        }
    }
}

/// The scripts among the file names of the scripts directory, sorted.
pub fn discover_scripts(files: &Vec<String>) -> (names: Vec<String>)
    ensures
        ascending(texts(names@)),
        texts(names@).to_multiset() == script_stems(texts(files@)).to_multiset(),
{
    let mut found: Vec<String> = Vec::new();
    let mut i: usize = 0;
    assert(texts(files@).subrange(0, 0) =~= Seq::<Seq<char>>::empty());
    assert(texts(found@) =~= Seq::<Seq<char>>::empty());
    while i < files.len()
        invariant
            i <= files@.len(),
            texts(found@) == script_stems(texts(files@).subrange(0, i as int)),
        decreases files.len() - i,
    {
        let f = files[i].as_str();
        let ghost pre = texts(files@).subrange(0, i as int);
        proof {
            assert(texts(files@).subrange(0, i as int + 1).drop_last() =~= pre);
            assert(texts(files@).subrange(0, i as int + 1).last() == f@);
        }
        let n = f.unicode_len();
        let k1 = after_last(f, '.');
        proof {
            lemma_last_index(f@, '.', n as int);
        }
        if k1 > 1 && str_eq(f.substring_char(k1, n), "rhai") {
            let ghost before = texts(found@);
            found.push(String::from_str(f.substring_char(0, k1 - 1)));
            assert(texts(found@) =~= before.push(f@.subrange(0, k1 - 1)));
        }
        i = i + 1;
    }
    assert(texts(files@).subrange(0, i as int) =~= texts(files@));
    sort_texts(&found)
}

} // verus!
