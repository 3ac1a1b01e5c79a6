//! Project utilities under `./tools/`: where a tool lives and how it is run.

use vstd::prelude::*;
use vstd::string::*;
use crate::orch::paths::{join_path, resolve};
use crate::orch::qemu::{has_prefix, texts};
use crate::orch::text::{contains, contains_text, ends_with, replace_all, replace_from, starts_with, str_eq,
    str_eq_ignore_case, eq_ignore_case};
use crate::orch::sorting::{sort_unique_texts, strictly_ascending};
use crate::orch::util::{answered, CmdResult};

verus! {

/// The result of running a project tool.
pub struct ToolRun {
    pub program: String,
    pub args: Vec<String>,
    pub result: CmdResult,
}

/// Why a tool could not be run.
#[derive(Debug, Clone, PartialEq, Eq)]
pub enum ToolError {
    /// The tool path climbs out with `..`.
    ParentTraversal,
    /// No file at the resolved tool path.
    NotFound(String),
    /// The tool's extension is not `.py`, `.ps1` or `.exe`.
    Unsupported(String),
    /// A Python tool, but no interpreter was found.
    PythonNotFound,
}

/// The path of a tool under `root`: `\` read as `/`, refused when it holds
/// `..`, and taken under `tools/` unless it already begins there.
pub open spec fn tool_path(root: Seq<char>, tool: Seq<char>) -> Option<Seq<char>> {
    let n = replace_from(tool, 0, "\\"@, "/"@);
    if contains_text(n, ".."@) {
        None
    } else if has_prefix(n, "tools/"@) {
        Some(join_path(root, n))
    } else {
        Some(join_path(root, "tools/"@ + n))
    }
}

/// Resolve a tool path under `<root>/tools/` (see [`tool_path`]); it must be
/// a file, as `is_file` tells.
pub fn resolve_tool_path<F: Fn(&str) -> bool>(root: &str, tool: &str, is_file: F) -> (r: Result<String, ToolError>)
    requires
        forall|q: &str| call_requires(is_file, (q,)),
    ensures
        match tool_path(root@, tool@) {
            None => r == Err::<String, ToolError>(ToolError::ParentTraversal),
            Some(p) => match r {
                Ok(q) => q@ == p && answered(is_file, p, true),
                Err(ToolError::NotFound(q)) => q@ == p && answered(is_file, p, false),
                _ => false,
            },
        },
{
    proof {
        reveal_strlit("\\");
    }
    let normalized = replace_all(tool, "\\", "/");
    if contains(normalized.as_str(), "..") {
        return Err(ToolError::ParentTraversal);
    }
    let path = if starts_with(normalized.as_str(), "tools/") {
        resolve(root, normalized.as_str())
    } else {
        let mut rel = String::from_str("tools/");
        rel.append(normalized.as_str());
        resolve(root, rel.as_str())
    };
    if !is_file(path.as_str()) {
        return Err(ToolError::NotFound(path));
    }
    Ok(path)
}

/// Whether a file is a tool: `.py`, `.ps1`, `.rs`, or `Cargo.toml`.
pub open spec fn tool_file_name(name: Seq<char>) -> bool {
    ||| (name.len() >= 3 && name.subrange(name.len() - 3, name.len() as int) == ".py"@)
    ||| (name.len() >= 4 && name.subrange(name.len() - 4, name.len() as int) == ".ps1"@)
    ||| (name.len() >= 3 && name.subrange(name.len() - 3, name.len() as int) == ".rs"@)
    ||| name == "Cargo.toml"@
}

/// Whether a file is a tool (see [`tool_file_name`]).
pub fn is_tool_file(name: &str) -> (r: bool)
    ensures
        r == tool_file_name(name@),
{
    proof {
        reveal_strlit(".py");
        reveal_strlit(".ps1");
        reveal_strlit(".rs");
    }
    ends_with(name, ".py") || ends_with(name, ".ps1") || ends_with(name, ".rs") || str_eq(name, "Cargo.toml")
}

/// Index of the last `c` in `s` before `j` (or -1).
pub open spec fn last_index(s: Seq<char>, c: char, j: int) -> int
    decreases j,
{
    if j <= 0 {
        -1
    } else if s[j - 1] == c {
        j - 1
    } else {
        last_index(s, c, j - 1)
    }
}

/// The extension of a file path: what follows the last `.` of the last
/// component, when that `.` is not the component's first character; else
/// empty.
pub open spec fn extension(p: Seq<char>) -> Seq<char> {
    let name = p.subrange(last_index(p, '/', p.len() as int) + 1, p.len() as int);
    let k = last_index(name, '.', name.len() as int);
    if k > 0 { name.subrange(k + 1, name.len() as int) } else { Seq::empty() }
}

pub(crate) proof fn lemma_last_index(s: Seq<char>, c: char, j: int)
    requires
        j <= s.len(),
    ensures
        -1 <= last_index(s, c, j) < (if j > 0 { j } else { 0 }),
    decreases j,
{
    if j > 0 {
        lemma_last_index(s, c, j - 1);
    }
}

/// One past the index of the last `c` in `s` (0 when there is none).
pub(crate) fn after_last(s: &str, c: char) -> (r: usize)
    ensures
        r == last_index(s@, c, s@.len() as int) + 1,
{
    let n = s.unicode_len();
    let mut j: usize = n;
    while j > 0
        invariant
            n == s@.len(),
            j <= n,
            last_index(s@, c, n as int) == last_index(s@, c, j as int),
        decreases j,
    {
        if s.get_char(j - 1) == c {
            return j;
        }
        j = j - 1;
    }
    0
}

/// The extension of a file path (see [`extension`]).
fn path_extension(p: &str) -> (e: &str)
    ensures
        e@ == extension(p@),
{
    let n = p.unicode_len();
    let from = after_last(p, '/');
    proof {
        lemma_last_index(p@, '/', n as int);
    }
    let name = p.substring_char(from, n);
    let m = name.unicode_len();
    let dot1 = after_last(name, '.');
    proof {
        lemma_last_index(name@, '.', m as int);
    }
    if dot1 > 1 {
        name.substring_char(dot1, m)
    } else {
        proof {
            reveal_strlit("");
            assert(Seq::<char>::empty() =~= extension(p@)) by {
                assert(name@ == p@.subrange(last_index(p@, '/', p@.len() as int) + 1, p@.len() as int));
            }
        }
        ""
    }
}

/// How a tool at `path` is started with `args`: `.py` through the Python
/// interpreter `python` (when one was found), `.ps1` through PowerShell,
/// `.exe` directly (extension case ignored). `None` is the refusal.
pub open spec fn tool_command(path: Seq<char>, args: Seq<Seq<char>>, python: Option<Seq<char>>)
    -> Result<(Seq<char>, Seq<Seq<char>>), (int, Seq<char>)>
{
    let ext = extension(path);
    if eq_ignore_case(ext, "py"@) {
        match python {
            Some(py) => Ok((py, seq![path] + args)),
            None => Err((3, Seq::empty())),
        }
    } else if eq_ignore_case(ext, "ps1"@) {
        Ok(("powershell"@, seq!["-NoProfile"@, "-ExecutionPolicy"@, "Bypass"@, "-File"@, path] + args))
    } else if eq_ignore_case(ext, "exe"@) {
        Ok((path, args))
    } else {
        Err((2, ext))
    }
}

/// The view of a refusal: its kind (in declaration order) and its text.
pub open spec fn tool_error_view(e: ToolError) -> (int, Seq<char>) {
    match e {
        ToolError::ParentTraversal => (0, Seq::empty()),
        ToolError::NotFound(p) => (1, p@),
        ToolError::Unsupported(x) => (2, x@),
        ToolError::PythonNotFound => (3, Seq::empty()),
    }
}

/// Append copies of `extra`.
fn append_all(out: &mut Vec<String>, extra: &Vec<String>)
    ensures
        texts(final(out)@) == texts(old(out)@) + texts(extra@),
{
    let ghost start = texts(out@);
    let mut k: usize = 0;
    while k < extra.len()
        invariant
            k <= extra@.len(),
            texts(out@) == start + texts(extra@).subrange(0, k as int),
        decreases extra.len() - k,
    {
        let ghost before = texts(out@);
        out.push(extra[k].clone());
        assert(texts(out@) =~= before.push(extra@[k as int]@));
        assert(texts(extra@).subrange(0, k as int + 1) =~= texts(extra@).subrange(0, k as int).push(extra@[k as int]@));
        k = k + 1;
    }
    assert(texts(extra@).subrange(0, k as int) =~= texts(extra@));
}

/// Append each of `words`.
fn push_all(out: &mut Vec<String>, words: &[&str])
    ensures
        texts(final(out)@) == texts(old(out)@) + words@.map_values(|w: &str| w@),
{
    let ghost start = texts(out@);
    let ghost ws = words@.map_values(|w: &str| w@);
    let mut k: usize = 0;
    while k < words.len()
        invariant
            k <= words@.len(),
            ws == words@.map_values(|w: &str| w@),
            texts(out@) == start + ws.subrange(0, k as int),
        decreases words.len() - k,
    {
        let ghost before = texts(out@);
        out.push(String::from_str(words[k]));
        assert(texts(out@) =~= before.push(ws[k as int]));
        assert(ws.subrange(0, k as int + 1) =~= ws.subrange(0, k as int).push(ws[k as int]));
        k = k + 1;
    }
    assert(ws.subrange(0, k as int) =~= ws);
}

/// The program and arguments that start the tool at `path` (see
/// [`tool_command`]); `find_python` is asked only for a Python tool.
pub fn tool_invocation<F: Fn() -> Option<String>>(path: &str, args: &Vec<String>, find_python: F)
    -> (r: Result<(String, Vec<String>), ToolError>)
    requires
        call_requires(find_python, ()),
    ensures
        eq_ignore_case(extension(path@), "py"@) ==> exists|py: Option<String>| call_ensures(find_python, (), py) && match (r, tool_command(path@, texts(args@), match py { Some(p) => Some(p@), None => None })) {
            (Ok(c), Ok(v)) => c.0@ == v.0 && texts(c.1@) == v.1,
            (Err(e), Err(ev)) => tool_error_view(e) == ev,
            _ => false,
        },
        !eq_ignore_case(extension(path@), "py"@) ==> match (r, tool_command(path@, texts(args@), None)) {
            (Ok(c), Ok(v)) => c.0@ == v.0 && texts(c.1@) == v.1,
            (Err(e), Err(ev)) => tool_error_view(e) == ev,
            _ => false,
        },
{
    let ext = path_extension(path);
    let mut a: Vec<String> = Vec::new();
    if str_eq_ignore_case(ext, "py") {
        let py = find_python();
        match py {
            Some(p) => {
                a.push(String::from_str(path));
                assert(texts(a@) =~= seq![path@]);
                append_all(&mut a, args);
                return Ok((p, a));
            },
            None => {
                return Err(ToolError::PythonNotFound);
            },
        }
    }
    if str_eq_ignore_case(ext, "ps1") {
        let words: &[&str] = &["-NoProfile", "-ExecutionPolicy", "Bypass", "-File"];
        assert(words@.map_values(|w: &str| w@) =~= seq!["-NoProfile"@, "-ExecutionPolicy"@, "Bypass"@, "-File"@]);
        push_all(&mut a, words);
        let ghost mid = texts(a@);
        a.push(String::from_str(path));
        assert(texts(a@) =~= mid.push(path@));
        append_all(&mut a, args);
        assert(texts(a@) =~= seq!["-NoProfile"@, "-ExecutionPolicy"@, "Bypass"@, "-File"@, path@] + texts(args@));
        return Ok((String::from_str("powershell"), a));
    }
    if str_eq_ignore_case(ext, "exe") {
        assert(texts(a@) =~= Seq::<Seq<char>>::empty());
        append_all(&mut a, args);
        assert(texts(a@) =~= texts(args@));
        return Ok((String::from_str(path), a));
    }
    Err(ToolError::Unsupported(String::from_str(ext)))
}

/// One entry of the `tools/` directory: its name, whether it is a directory,
/// and (for a directory) the names of the files directly in it.
pub struct ToolDirEntry {
    pub name: String,
    pub is_dir: bool,
    pub files: Vec<String>,
}

/// Whether one of the first `k` files of directory entry `e` is a tool file
/// whose `<dir>/<file>` name is `t`.
pub open spec fn dir_lists(e: ToolDirEntry, k: int, t: Seq<char>) -> bool {
    exists|q: int| 0 <= q < k && q < e.files@.len() && tool_file_name(#[trigger] e.files@[q]@)
        && t == e.name@ + "/"@ + e.files@[q]@
}

/// Whether the entry contributes the tool name `t`: `<dir>/<file>` for a tool
/// file in a subdirectory, `<file>` for a tool file at the top.
pub open spec fn entry_lists(e: ToolDirEntry, t: Seq<char>) -> bool {
    if e.is_dir {
        dir_lists(e, e.files@.len() as int, t)
    } else {
        tool_file_name(e.name@) && t == e.name@
    }
}

/// Whether one of the first `i` entries contributes the tool name `t`.
pub open spec fn prefix_lists(entries: Seq<ToolDirEntry>, i: int, t: Seq<char>) -> bool {
    exists|j: int| 0 <= j < i && j < entries.len() && #[trigger] entry_lists(entries[j], t)
}

proof fn lemma_dir_lists_step(e: ToolDirEntry, k: int, t: Seq<char>)
    requires
        0 <= k < e.files@.len(),
    ensures
        dir_lists(e, k + 1, t) == (dir_lists(e, k, t)
            || (tool_file_name(e.files@[k]@) && t == e.name@ + "/"@ + e.files@[k]@)),
{
    if dir_lists(e, k + 1, t) {
        let q = choose|q: int| 0 <= q < k + 1 && q < e.files@.len() && tool_file_name(#[trigger] e.files@[q]@)
            && t == e.name@ + "/"@ + e.files@[q]@;
        if q < k {
            assert(dir_lists(e, k, t));
        }
    }
}

proof fn lemma_prefix_lists_step(entries: Seq<ToolDirEntry>, i: int, t: Seq<char>)
    requires
        0 <= i < entries.len(),
    ensures
        prefix_lists(entries, i + 1, t) == (prefix_lists(entries, i, t) || entry_lists(entries[i], t)),
{
    if prefix_lists(entries, i + 1, t) {
        let j = choose|j: int| 0 <= j < i + 1 && j < entries.len() && #[trigger] entry_lists(entries[j], t);
        if j < i {
            assert(prefix_lists(entries, i, t));
        }
    }
}

/// What a tools listing yields (the names [`discover_tools`] returns, sorted
/// and each once): nothing for an empty listing; otherwise only `<file>` for
/// a tool file at the top of `tools/` or `<dir>/<file>` for a tool file
/// directly inside a subdirectory, a tool file being `.py`, `.ps1`, `.rs` or
/// `Cargo.toml`.
pub proof fn law_discovered_tool_shape(entries: Seq<ToolDirEntry>, t: Seq<char>)
    ensures
        entries.len() == 0 ==> !prefix_lists(entries, entries.len() as int, t),
        prefix_lists(entries, entries.len() as int, t) ==> exists|j: int|
            0 <= j < entries.len() && {
                let e = #[trigger] entries[j];
                ||| (!e.is_dir && tool_file_name(e.name@) && t == e.name@)
                ||| (e.is_dir && exists|q: int|
                    0 <= q < e.files@.len() && tool_file_name(#[trigger] e.files@[q]@) && t == e.name@ + "/"@
                        + e.files@[q]@)
            },
{
    if prefix_lists(entries, entries.len() as int, t) {
        let j = choose|j: int| 0 <= j < entries.len() && j < entries.len() && #[trigger] entry_lists(entries[j], t);
        assert(entry_lists(entries[j], t));
    }
}

/// The tool names of a `tools/` listing (see [`entry_lists`]), sorted,
/// each once.
pub fn discover_tools(entries: &Vec<ToolDirEntry>) -> (names: Vec<String>)
    ensures
        strictly_ascending(texts(names@)),
        forall|t: Seq<char>| texts(names@).contains(t) <==> prefix_lists(entries@, entries@.len() as int, t),
{
    proof {
        reveal_strlit("/");
    }
    let mut found: Vec<String> = Vec::new();
    let mut i: usize = 0;
    while i < entries.len()
        invariant
            i <= entries@.len(),
            forall|t: Seq<char>| texts(found@).contains(t) <==> prefix_lists(entries@, i as int, t),
        decreases entries.len() - i,
    {
        let e = &entries[i];
        let ghost before = texts(found@);
        if e.is_dir {
            let mut k: usize = 0;
            while k < e.files.len()
                invariant
                    i < entries@.len(),
                    k <= e.files@.len(),
                    *e == entries@[i as int],
                    e.is_dir,
                    forall|t: Seq<char>| texts(found@).contains(t) <==> (before.contains(t) || dir_lists(*e, k as int, t)),
                decreases e.files.len() - k,
            {
                let ghost mid = texts(found@);
                let keep = is_tool_file(e.files[k].as_str());
                if keep {
                    let mut n = String::from_str(e.name.as_str());
                    n.append("/");
                    n.append(e.files[k].as_str());
                    found.push(n);
                    proof {
                        assert(n@ == e.name@ + "/"@ + e.files@[k as int]@);
                        assert(texts(found@) =~= mid.push(n@));
                        lemma_push_contains(mid, n@);
                    }
                }
                let ghost kk = k as int;
                proof {
                    assert(keep == tool_file_name(e.files@[kk]@));
                }
                k = k + 1;
                proof {
                    assert forall|t: Seq<char>| texts(found@).contains(t) <==> (before.contains(t) || dir_lists(*e, k as int, t)) by {
                        lemma_dir_lists_step(*e, kk, t);
                        assert(mid.contains(t) <==> (before.contains(t) || dir_lists(*e, kk, t)));
                        if !keep {
                            assert(texts(found@) == mid);
                        }
                    }
                }
            }
        } else if is_tool_file(e.name.as_str()) {
            found.push(String::from_str(e.name.as_str()));
            proof {
                assert(texts(found@) =~= before.push(e.name@));
                lemma_push_contains(before, e.name@);
            }
        }
        proof {
            assert forall|t: Seq<char>| texts(found@).contains(t) <==> prefix_lists(entries@, i as int + 1, t) by {
                lemma_prefix_lists_step(entries@, i as int, t);
                assert(before.contains(t) <==> prefix_lists(entries@, i as int, t));
                if e.is_dir {
                    assert(entry_lists(entries@[i as int], t) == dir_lists(*e, e.files@.len() as int, t));
                } else {
                    assert(entry_lists(entries@[i as int], t) == (tool_file_name(e.name@) && t == e.name@));
                }
            }
        }
        i = i + 1;
    }
    let names = sort_unique_texts(&found);
    proof {
        assert forall|t: Seq<char>| texts(names@).contains(t) <==> prefix_lists(entries@, entries@.len() as int, t) by {
            assert(texts(names@).to_set().contains(t) == texts(names@).contains(t));
            assert(texts(found@).to_set().contains(t) == texts(found@).contains(t));
        }
    }
    names
}

proof fn lemma_push_contains(s: Seq<Seq<char>>, x: Seq<char>)
    ensures
        forall|t: Seq<char>| s.push(x).contains(t) <==> (s.contains(t) || t == x),
{
    assert forall|t: Seq<char>| s.push(x).contains(t) <==> (s.contains(t) || t == x) by {
        if s.push(x).contains(t) {
            let k = choose|k: int| 0 <= k < s.push(x).len() && s.push(x)[k] == t;
            if k < s.len() {
                assert(s[k] == t);
            }
        }
        if s.contains(t) {
            let k = choose|k: int| 0 <= k < s.len() && s[k] == t;
            assert(s.push(x)[k] == t);
        }
        if t == x {
            assert(s.push(x)[s.len() as int] == t);
        }
    }
}

} // verus!
