//! `run` options and the QEMU command line built from them.

use vstd::prelude::*;
use vstd::string::*;
use crate::orch::fs_image::{decimal, fs_of_name, kind_name, push_decimal, FilesystemKind};
use crate::orch::paths::{image_file_name, join_path, persistent_image_path, resolve, IMAGES_DIR};
use crate::orch::text::{eq_ignore_case, lower, replace_all, replace_from, starts_with, str_eq};

verus! {

/// Parsed `run` extras: `--disk:ntfs`, `--memory:128M`, `--serial`, `--debug`.
#[derive(Debug, Clone, Default, PartialEq, Eq)]
pub struct RunOptions {
    pub disks: Vec<String>,
    pub memory: Option<String>,
    pub serial: bool,
    pub debug: bool,
}

/// The texts and flags of run options.
pub type RunOptionsView = (Seq<Seq<char>>, Option<Seq<char>>, bool, bool);

/// The view of a run option set.
pub open spec fn run_options_view(o: RunOptions) -> RunOptionsView {
    (
        o.disks@.map_values(|d: String| d@),
        match o.memory {
            Some(m) => Some(m@),
            None => None,
        },
        o.serial,
        o.debug,
    )
}

/// Why `run` extras were refused.
#[derive(Debug, Clone, PartialEq, Eq)]
pub enum RunOptionsError {
    /// `--disk:` without a filesystem name.
    EmptyDisk,
    /// `--disk:` naming neither `exfat` nor `ntfs`.
    UnknownFilesystem,
    /// `--memory:` without a size.
    EmptyMemory,
    /// An argument that is no known option.
    UnknownOption(String),
}

/// The view of a refusal: its kind (in declaration order) and the text of an
/// unknown option (empty for the other kinds).
pub open spec fn run_error_view(e: RunOptionsError) -> (int, Seq<char>) {
    match e {
        RunOptionsError::EmptyDisk => (0, Seq::empty()),
        RunOptionsError::UnknownFilesystem => (1, Seq::empty()),
        RunOptionsError::EmptyMemory => (2, Seq::empty()),
        RunOptionsError::UnknownOption(a) => (3, a@),
    }
}

/// ASCII lower case of a text.
pub open spec fn lowered(s: Seq<char>) -> Seq<char> {
    s.map_values(|c: char| lower(c))
}

/// Whether `s` begins with `p`.
pub open spec fn has_prefix(s: Seq<char>, p: Seq<char>) -> bool {
    p.len() <= s.len() && s.subrange(0, p.len() as int) == p
}

/// One argument applied to the options so far.
pub open spec fn run_arg_step(o: RunOptionsView, a: Seq<char>) -> Result<RunOptionsView, (int, Seq<char>)> {
    if has_prefix(a, "--disk:"@) {
        let d = a.subrange(7, a.len() as int);
        if d.len() == 0 {
            Err((0, Seq::empty()))
        } else if fs_of_name(d) is None {
            Err((1, Seq::empty()))
        } else {
            Ok((o.0.push(lowered(d)), o.1, o.2, o.3))
        }
    } else if has_prefix(a, "--memory:"@) {
        let m = a.subrange(9, a.len() as int);
        if m.len() == 0 {
            Err((2, Seq::empty()))
        } else {
            Ok((o.0, Some(m), o.2, o.3))
        }
    } else if a == "--serial"@ {
        Ok((o.0, o.1, true, o.3))
    } else if a == "--debug"@ {
        Ok((o.0, o.1, o.2, true))
    } else {
        Err((3, a))
    }
}

/// The options that `args` give, applied in order, or the first refusal.
pub open spec fn run_options_of(args: Seq<Seq<char>>) -> Result<RunOptionsView, (int, Seq<char>)>
    decreases args.len(),
{
    if args.len() == 0 {
        Ok((Seq::empty(), None, false, false))
    } else {
        match run_options_of(args.drop_last()) {
            Ok(o) => run_arg_step(o, args.last()),
            Err(e) => Err(e),
        }
    }
}

proof fn lemma_flag_words()
    ensures
        !has_prefix("--serial"@, "--disk:"@),
        !has_prefix("--serial"@, "--memory:"@),
        !has_prefix("--debug"@, "--disk:"@),
        !has_prefix("--debug"@, "--memory:"@),
        "--serial"@ != "--debug"@,
{
    reveal_strlit("--serial");
    reveal_strlit("--debug");
    reveal_strlit("--disk:");
    reveal_strlit("--memory:");
    assert("--serial"@.subrange(0, 7)[2] != "--disk:"@[2]);
    assert("--debug"@.subrange(0, 7)[3] != "--disk:"@[3]);
    assert("--serial"@.len() != "--debug"@.len());
}

/// Each flag option sets only its own flag: in parsed options, serial output
/// is on exactly when `--serial` is among the arguments, and debugging
/// exactly when `--debug` is.
pub proof fn law_run_flags(args: Seq<Seq<char>>)
    requires
        run_options_of(args) is Ok,
    ensures
        run_options_of(args)->Ok_0.2 == args.contains("--serial"@),
        run_options_of(args)->Ok_0.3 == args.contains("--debug"@),
    decreases args.len(),
{
    if args.len() > 0 {
        let init = args.drop_last();
        let a = args.last();
        law_run_flags(init);
        lemma_flag_words();
        let o = run_options_of(init)->Ok_0;
        let r = run_options_of(args)->Ok_0;
        assert(args == init.push(a));
        assert(args.contains("--serial"@) == (init.contains("--serial"@) || a == "--serial"@)) by {
            if args.contains("--serial"@) {
                let j = choose|j: int| 0 <= j < args.len() && args[j] == "--serial"@;
                if j < init.len() {
                    assert(init[j] == args[j]);
                }
            }
            if init.contains("--serial"@) {
                let j = choose|j: int| 0 <= j < init.len() && init[j] == "--serial"@;
                assert(args[j] == init[j]);
            }
            assert(args[args.len() - 1] == a);
        }
        assert(args.contains("--debug"@) == (init.contains("--debug"@) || a == "--debug"@)) by {
            if args.contains("--debug"@) {
                let j = choose|j: int| 0 <= j < args.len() && args[j] == "--debug"@;
                if j < init.len() {
                    assert(init[j] == args[j]);
                }
            }
            if init.contains("--debug"@) {
                let j = choose|j: int| 0 <= j < init.len() && init[j] == "--debug"@;
                assert(args[j] == init[j]);
            }
            assert(args[args.len() - 1] == a);
        }
        if has_prefix(a, "--disk:"@) || has_prefix(a, "--memory:"@) {
            assert(a != "--serial"@ && a != "--debug"@);
        }
        assert(r.2 == (o.2 || a == "--serial"@));
        assert(r.3 == (o.3 || a == "--debug"@));
    } else {
        assert(!args.contains("--serial"@));
        assert(!args.contains("--debug"@));
    }
}

/// An argument `run` accepts: `--disk:<exfat|ntfs>` (any case),
/// `--memory:<size>` with a size, `--serial` or `--debug`.
pub open spec fn valid_run_arg(a: Seq<char>) -> bool {
    ||| has_prefix(a, "--disk:"@) && fs_of_name(a.subrange(7, a.len() as int)) is Some
    ||| has_prefix(a, "--memory:"@) && a.len() > 9
    ||| a == "--serial"@
    ||| a == "--debug"@
}

/// The disk names that the `--disk:` arguments among `args` give, lower-cased, in order.
pub open spec fn disk_names(args: Seq<Seq<char>>) -> Seq<Seq<char>>
    decreases args.len(),
{
    if args.len() == 0 {
        Seq::empty()
    } else {
        let a = args.last();
        disk_names(args.drop_last()) + if has_prefix(a, "--disk:"@) {
            seq![lowered(a.subrange(7, a.len() as int))]
        } else {
            Seq::empty()
        }
    }
}

/// `run` options are accepted exactly when every argument is one it knows;
/// then the disks are the `--disk:` names in order, and the memory size is
/// that of the last `--memory:` argument (none without one).
pub proof fn law_run_options_accepted(args: Seq<Seq<char>>)
    ensures
        (run_options_of(args) is Ok) == (forall|i: int| 0 <= i < args.len() ==> valid_run_arg(#[trigger] args[i])),
        run_options_of(args) is Ok ==> {
            let o = run_options_of(args)->Ok_0;
            &&& o.0 == disk_names(args)
            &&& (o.1 is None) == (forall|i: int| 0 <= i < args.len() ==> !has_prefix(#[trigger] args[i], "--memory:"@))
            &&& o.1 is Some ==> exists|i: int|
                0 <= i < args.len() && #[trigger] args[i] == "--memory:"@ + o.1->Some_0 && forall|j: int|
                    i < j < args.len() ==> !has_prefix(#[trigger] args[j], "--memory:"@)
        },
    decreases args.len(),
{
    reveal_strlit("--memory:");
    reveal_strlit("--disk:");
    if args.len() > 0 {
        let init = args.drop_last();
        let a = args.last();
        law_run_options_accepted(init);
        lemma_flag_words();
        assert(args == init.push(a));
        assert(forall|i: int| 0 <= i < init.len() ==> #[trigger] init[i] == args[i]);
        assert(args[args.len() - 1] == a);
        let vi = forall|i: int| 0 <= i < init.len() ==> valid_run_arg(#[trigger] init[i]);
        assert((forall|i: int| 0 <= i < args.len() ==> valid_run_arg(#[trigger] args[i])) == (vi && valid_run_arg(a))) by {
            if vi && valid_run_arg(a) {
                assert forall|i: int| 0 <= i < args.len() implies valid_run_arg(#[trigger] args[i]) by {
                    if i < init.len() {
                        assert(valid_run_arg(init[i]));
                    }
                }
            }
            if forall|i: int| 0 <= i < args.len() ==> valid_run_arg(#[trigger] args[i]) {
                assert(valid_run_arg(args[args.len() - 1]));
                assert forall|i: int| 0 <= i < init.len() implies valid_run_arg(#[trigger] init[i]) by {
                    assert(valid_run_arg(args[i]));
                }
            }
        }
        if run_options_of(init) is Ok {
            let o = run_options_of(init)->Ok_0;
            if has_prefix(a, "--disk:"@) {
                assert(!has_prefix(a, "--memory:"@)) by {
                    if has_prefix(a, "--memory:"@) {
                        assert(a[2] == "--disk:"@[2]);
                        assert(a[2] == "--memory:"@[2]);
                    }
                }
                reveal_strlit("exfat");
                reveal_strlit("ntfs");
                let dn = a.subrange(7, a.len() as int);
                if dn.len() == 0 {
                    assert(!eq_ignore_case(dn, "exfat"@));
                    assert(!eq_ignore_case(dn, "ntfs"@));
                    assert(fs_of_name(dn) is None);
                }
                assert(a != "--serial"@ && a != "--debug"@);
            }
            if has_prefix(a, "--memory:"@) {
                assert(a != "--serial"@ && a != "--debug"@);
            }
            assert((run_arg_step(o, a) is Ok) == valid_run_arg(a));
            if has_prefix(a, "--memory:"@) {
                let m = a.subrange(9, a.len() as int);
                assert(a =~= "--memory:"@ + m) by {
                    assert(a.subrange(0, 9) == "--memory:"@);
                }
                if m.len() > 0 {
                    let r = run_options_of(args)->Ok_0;
                    assert(r.1 == Some(m));
                    assert(args[args.len() - 1] == "--memory:"@ + m);
                }
            }
            if run_options_of(args) is Ok {
                let r = run_options_of(args)->Ok_0;
                assert((r.1 is None) == (forall|i: int| 0 <= i < args.len() ==> !has_prefix(#[trigger] args[i], "--memory:"@))) by {
                    if !(forall|i: int| 0 <= i < args.len() ==> !has_prefix(#[trigger] args[i], "--memory:"@)) {
                        let i = choose|i: int| 0 <= i < args.len() && has_prefix(#[trigger] args[i], "--memory:"@);
                        if i < init.len() {
                            assert(has_prefix(init[i], "--memory:"@));
                        }
                    }
                    if forall|i: int| 0 <= i < args.len() ==> !has_prefix(#[trigger] args[i], "--memory:"@) {
                        assert(!has_prefix(args[args.len() - 1], "--memory:"@));
                        assert forall|i: int| 0 <= i < init.len() implies !has_prefix(#[trigger] init[i], "--memory:"@) by {
                            assert(!has_prefix(args[i], "--memory:"@));
                        }
                    }
                }
                if r.1 is Some && !has_prefix(a, "--memory:"@) {
                    let i = choose|i: int|
                        0 <= i < init.len() && #[trigger] init[i] == "--memory:"@ + o.1->Some_0 && forall|j: int|
                            i < j < init.len() ==> !has_prefix(#[trigger] init[j], "--memory:"@);
                    assert(args[i] == "--memory:"@ + r.1->Some_0);
                    assert forall|j: int| i < j < args.len() implies !has_prefix(#[trigger] args[j], "--memory:"@) by {
                        if j < init.len() {
                            assert(!has_prefix(init[j], "--memory:"@));
                        }
                    }
                }
                if r.1 is Some && has_prefix(a, "--memory:"@) {
                    let i = args.len() - 1;
                    assert(args[i] == "--memory:"@ + r.1->Some_0);
                }
                assert(r.0 =~= disk_names(args));
            }
        }
    } else {
        assert(disk_names(args) =~= Seq::<Seq<char>>::empty());
    }
}

/// Why `run` refuses the argument `a` (see [`run_error_view`]): a `--disk:`
/// without a name or with an unknown one, a `--memory:` without a size, or
/// an unknown option.
pub open spec fn run_refusal(a: Seq<char>) -> (int, Seq<char>) {
    if has_prefix(a, "--disk:"@) {
        if a.len() == 7 { (0, Seq::empty()) } else { (1, Seq::empty()) }
    } else if has_prefix(a, "--memory:"@) {
        (2, Seq::empty())
    } else {
        (3, a)
    }
}

/// A refused `run` parse reports the first argument it does not know, and why.
pub proof fn law_run_options_first_refusal(args: Seq<Seq<char>>)
    ensures
        run_options_of(args) is Err ==> exists|i: int|
            0 <= i < args.len() && (forall|j: int| 0 <= j < i ==> valid_run_arg(#[trigger] args[j])) && !valid_run_arg(
                #[trigger] args[i]) && run_options_of(args)->Err_0 == run_refusal(args[i]),
    decreases args.len(),
{
    if args.len() > 0 && run_options_of(args) is Err {
        let init = args.drop_last();
        let a = args.last();
        law_run_options_first_refusal(init);
        law_run_options_accepted(init);
        lemma_flag_words();
        reveal_strlit("--memory:");
        reveal_strlit("--disk:");
        assert(forall|i: int| 0 <= i < init.len() ==> #[trigger] init[i] == args[i]);
        if run_options_of(init) is Err {
            let i = choose|i: int|
                0 <= i < init.len() && (forall|j: int| 0 <= j < i ==> valid_run_arg(#[trigger] init[j])) && !valid_run_arg(
                    #[trigger] init[i]) && run_options_of(init)->Err_0 == run_refusal(init[i]);
            assert(args[i] == init[i]);
            assert(forall|j: int| 0 <= j < i ==> valid_run_arg(#[trigger] args[j])) by {
                assert forall|j: int| 0 <= j < i implies valid_run_arg(#[trigger] args[j]) by {
                    assert(valid_run_arg(init[j]));
                }
            }
        } else {
            let i = args.len() - 1;
            assert(args[i] == a);
            assert(forall|j: int| 0 <= j < i ==> valid_run_arg(#[trigger] args[j])) by {
                assert forall|j: int| 0 <= j < i implies valid_run_arg(#[trigger] args[j]) by {
                    assert(valid_run_arg(init[j]));
                }
            }
            let o = run_options_of(init)->Ok_0;
            if has_prefix(a, "--disk:"@) {
                assert(!has_prefix(a, "--memory:"@)) by {
                    if has_prefix(a, "--memory:"@) {
                        assert(a[2] == "--disk:"@[2]);
                        assert(a[2] == "--memory:"@[2]);
                    }
                }
                reveal_strlit("exfat");
                reveal_strlit("ntfs");
                let dn = a.subrange(7, a.len() as int);
                if dn.len() == 0 {
                    assert(!eq_ignore_case(dn, "exfat"@));
                    assert(!eq_ignore_case(dn, "ntfs"@));
                }
                assert(a != "--serial"@ && a != "--debug"@);
            }
            if has_prefix(a, "--memory:"@) {
                assert(a != "--serial"@ && a != "--debug"@);
            }
            assert(run_arg_step(o, a) is Err);
            assert(!valid_run_arg(a));
            assert(run_options_of(args)->Err_0 == run_refusal(a));
        }
    }
}

proof fn lemma_lowered_name(d: Seq<char>, k: FilesystemKind)
    requires
        fs_of_name(d) == Some(k),
    ensures
        lowered(d) == crate::orch::fs_image::kind_name(k),
{
    assert(lowered(d) =~= crate::orch::fs_image::kind_name(k));
}

proof fn lemma_refusal_sticks(sv: Seq<Seq<char>>, i: int, n: int, e: (int, Seq<char>))
    requires
        0 <= i <= n <= sv.len(),
        run_options_of(sv.subrange(0, i)) == Err::<RunOptionsView, (int, Seq<char>)>(e),
    ensures
        run_options_of(sv.subrange(0, n)) == Err::<RunOptionsView, (int, Seq<char>)>(e),
    decreases n - i,
{
    if n > i {
        lemma_refusal_sticks(sv, i, n - 1, e);
        assert(sv.subrange(0, n).drop_last() =~= sv.subrange(0, n - 1));
    }
}

impl RunOptions {
    /// Parse `run` extras in order; the first argument that is refused ends
    /// the parse.
    pub fn parse_extra_args(args: &[String]) -> (r: Result<RunOptions, RunOptionsError>)
        ensures
            match (r, run_options_of(args@.map_values(|s: String| s@))) {
                (Ok(o), Ok(v)) => run_options_view(o) == v,
                (Err(e), Err(ev)) => run_error_view(e) == ev,
                _ => false,
            },
    {
        let ghost sv = args@.map_values(|s: String| s@);
        let mut opts = RunOptions { disks: Vec::new(), memory: None, serial: false, debug: false };
        let mut i: usize = 0;
        assert(sv.subrange(0, 0) =~= Seq::<Seq<char>>::empty());
        assert(run_options_view(opts).0 =~= Seq::<Seq<char>>::empty());
        while i < args.len()
            invariant
                sv == args@.map_values(|s: String| s@),
                i <= args@.len(),
                run_options_of(sv.subrange(0, i as int)) == Ok::<RunOptionsView, (int, Seq<char>)>(run_options_view(opts)),
            decreases args.len() - i,
        {
            let a = args[i].as_str();
            proof {
                assert(sv.subrange(0, i as int + 1).drop_last() =~= sv.subrange(0, i as int));
                assert(sv.subrange(0, i as int + 1).last() == a@);
                reveal_strlit("--disk:");
                reveal_strlit("--memory:");
            }
            let n = a.unicode_len();
            if starts_with(a, "--disk:") {
                let d = a.substring_char(7, n);
                if n == 7 {
                    assert(d@ =~= Seq::<char>::empty());
                    proof {
                        lemma_refusal_sticks(sv, i as int + 1, sv.len() as int, (0, Seq::empty()));
                        assert(sv.subrange(0, sv.len() as int) =~= sv);
                    }
                    return Err(RunOptionsError::EmptyDisk);
                }
                match FilesystemKind::parse(d) {
                    Ok(fs) => {
                        proof {
                            lemma_lowered_name(d@, fs);
                        }
                        let ghost before = run_options_view(opts);
                        opts.disks.push(String::from_str(fs.name()));
                        proof {
                            assert(run_options_view(opts).0 =~= before.0.push(lowered(d@)));
                        }
                    },
                    Err(_) => {
                        proof {
                            lemma_refusal_sticks(sv, i as int + 1, sv.len() as int, (1, Seq::empty()));
                            assert(sv.subrange(0, sv.len() as int) =~= sv);
                        }
                        return Err(RunOptionsError::UnknownFilesystem);
                    },
                }
            } else if starts_with(a, "--memory:") {
                if n == 9 {
                    proof {
                        assert(a@.subrange(9, a@.len() as int) =~= Seq::<char>::empty());
                        lemma_refusal_sticks(sv, i as int + 1, sv.len() as int, (2, Seq::empty()));
                        assert(sv.subrange(0, sv.len() as int) =~= sv);
                    }
                    return Err(RunOptionsError::EmptyMemory);
                }
                let m = a.substring_char(9, n);
                opts.memory = Some(String::from_str(m));
            } else if str_eq(a, "--serial") {
                opts.serial = true;
            } else if str_eq(a, "--debug") {
                opts.debug = true;
            } else {
                proof {
                    lemma_refusal_sticks(sv, i as int + 1, sv.len() as int, (3, a@));
                    assert(sv.subrange(0, sv.len() as int) =~= sv);
                }
                return Err(RunOptionsError::UnknownOption(String::from_str(a)));
            }
            i = i + 1;
        }
        assert(sv.subrange(0, i as int) =~= sv);
        Ok(opts)
    }
}

/// The arguments from `i` on with each `-m <value>` pair turned into
/// `-m <mem>` (a trailing `-m` too gets `<mem>`).
pub open spec fn memory_rewrite(s: Seq<Seq<char>>, i: int, mem: Seq<char>) -> Seq<Seq<char>>
    decreases s.len() - i,
{
    if i >= s.len() || i < 0 {
        Seq::empty()
    } else if s[i] == "-m"@ {
        seq!["-m"@, mem] + memory_rewrite(s, if i + 2 <= s.len() { i + 2 } else { s.len() as int }, mem)
    } else {
        seq![s[i]] + memory_rewrite(s, i + 1, mem)
    }
}

/// QEMU arguments with the memory size set to `mem`: every `-m` value
/// replaced, or `-m <mem>` appended when there was none.
pub open spec fn with_memory(s: Seq<Seq<char>>, mem: Seq<char>) -> Seq<Seq<char>> {
    let o = memory_rewrite(s, 0, mem);
    if o.contains("-m"@) { o } else { o + seq!["-m"@, mem] }
}

/// The views of a list of strings.
pub open spec fn texts(v: Seq<String>) -> Seq<Seq<char>> {
    v.map_values(|s: String| s@)
}

/// Whether some argument is `-m`.
fn has_memory_flag(v: &Vec<String>) -> (r: bool)
    ensures
        r == texts(v@).contains("-m"@),
{
    let mut k: usize = 0;
    while k < v.len()
        invariant
            k <= v@.len(),
            forall|j: int| 0 <= j < k ==> texts(v@)[j] != "-m"@,
        decreases v.len() - k,
    {
        if str_eq(v[k].as_str(), "-m") {
            assert(texts(v@)[k as int] == "-m"@);
            return true;
        }
        k = k + 1;
    }
    proof {
        if texts(v@).contains("-m"@) {
            let j = choose|j: int| 0 <= j < texts(v@).len() && texts(v@)[j] == "-m"@;
            assert(texts(v@)[j] == "-m"@);
        }
    }
    false
}

/// Set the memory size in a QEMU argument list (see [`with_memory`]).
pub fn replace_memory_arg(args: Vec<String>, mem: &str) -> (out: Vec<String>)
    ensures
        texts(out@) == with_memory(texts(args@), mem@),
{
    let ghost s = texts(args@);
    let mut out: Vec<String> = Vec::new();
    let mut i: usize = 0;
    assert(texts(out@) =~= Seq::<Seq<char>>::empty());
    while i < args.len()
        invariant
            s == texts(args@),
            i <= args@.len(),
            texts(out@) + memory_rewrite(s, i as int, mem@) == memory_rewrite(s, 0, mem@),
        decreases args.len() - i,
    {
        let ghost before = texts(out@);
        if str_eq(args[i].as_str(), "-m") {
            out.push(String::from_str("-m"));
            out.push(String::from_str(mem));
            let next: usize = if args.len() - i >= 2 { i + 2 } else { args.len() };
            proof {
                assert(texts(out@) =~= before + seq!["-m"@, mem@]);
                assert(before + (seq!["-m"@, mem@] + memory_rewrite(s, next as int, mem@))
                    =~= texts(out@) + memory_rewrite(s, next as int, mem@));
            }
            i = next;
        } else {
            out.push(args[i].clone());
            proof {
                assert(texts(out@) =~= before + seq![s[i as int]]);
                assert(before + (seq![s[i as int]] + memory_rewrite(s, i + 1, mem@))
                    =~= texts(out@) + memory_rewrite(s, i + 1, mem@));
            }
            i = i + 1;
        }
    }
    assert(texts(out@) =~= memory_rewrite(s, 0, mem@));
    if !has_memory_flag(&out) {
        let ghost before = texts(out@);
        out.push(String::from_str("-m"));
        out.push(String::from_str(mem));
        assert(texts(out@) =~= before + seq!["-m"@, mem@]);
    }
    out
}

/// Whether `-m` is directly followed by `mem` somewhere in `o`.
pub open spec fn sets_memory(o: Seq<Seq<char>>, mem: Seq<char>) -> bool {
    exists|j: int| 0 <= j && j + 1 < o.len() && #[trigger] o[j] == "-m"@ && o[j + 1] == mem
}

/// Whether every `-m` in `o` is directly followed by `mem`.
pub open spec fn only_memory(o: Seq<Seq<char>>, mem: Seq<char>) -> bool {
    forall|j: int| 0 <= j < o.len() && #[trigger] o[j] == "-m"@ ==> j + 1 < o.len() && o[j + 1] == mem
}

proof fn lemma_rewrite_pairs(s: Seq<Seq<char>>, i: int, mem: Seq<char>)
    requires
        0 <= i <= s.len(),
    ensures
        memory_rewrite(s, i, mem).contains("-m"@) ==> sets_memory(memory_rewrite(s, i, mem), mem),
        mem != "-m"@ ==> only_memory(memory_rewrite(s, i, mem), mem),
    decreases s.len() - i,
{
    if i < s.len() {
        let o = memory_rewrite(s, i, mem);
        if s[i] == "-m"@ {
            let next = if i + 2 <= s.len() { i + 2 } else { s.len() as int };
            lemma_rewrite_pairs(s, next, mem);
            let r = memory_rewrite(s, next, mem);
            assert(o == seq!["-m"@, mem] + r);
            assert(o[0] == "-m"@ && o[1] == mem);
            if mem != "-m"@ {
                assert forall|j: int| 0 <= j < o.len() && #[trigger] o[j] == "-m"@ implies j + 1 < o.len() && o[j + 1] == mem by {
                    if j >= 2 {
                        assert(o[j] == r[j - 2]);
                        assert(o[j + 1] == r[j - 1]);
                    }
                }
            }
        } else {
            lemma_rewrite_pairs(s, i + 1, mem);
            let r = memory_rewrite(s, i + 1, mem);
            assert(o == seq![s[i]] + r);
            if o.contains("-m"@) {
                let k = choose|k: int| 0 <= k < o.len() && o[k] == "-m"@;
                assert(k >= 1);
                assert(r[k - 1] == o[k]);
                assert(r.contains("-m"@));
                let j = choose|j: int| 0 <= j && j + 1 < r.len() && #[trigger] r[j] == "-m"@ && r[j + 1] == mem;
                assert(o[j + 1] == r[j]);
                assert(o[j + 2] == r[j + 1]);
            }
            if mem != "-m"@ {
                assert forall|j: int| 0 <= j < o.len() && #[trigger] o[j] == "-m"@ implies j + 1 < o.len() && o[j + 1] == mem by {
                    assert(j >= 1);
                    assert(o[j] == r[j - 1]);
                    assert(o[j + 1] == r[j]);
                }
            }
        }
    }
}

/// After setting the memory size, QEMU is given `-m <mem>`, and (unless the
/// size text is itself `-m`) no `-m` is left with another value.
pub proof fn law_memory_is_set(s: Seq<Seq<char>>, mem: Seq<char>)
    ensures
        sets_memory(with_memory(s, mem), mem),
        mem != "-m"@ ==> only_memory(with_memory(s, mem), mem),
{
    lemma_rewrite_pairs(s, 0, mem);
    let o = memory_rewrite(s, 0, mem);
    if !o.contains("-m"@) {
        let w = o + seq!["-m"@, mem];
        assert(w[o.len() as int] == "-m"@ && w[o.len() as int + 1] == mem);
        if mem != "-m"@ {
            assert forall|j: int| 0 <= j < w.len() && #[trigger] w[j] == "-m"@ implies j + 1 < w.len() && w[j + 1] == mem by {
                if j < o.len() {
                    assert(o[j] == w[j]);
                }
            }
        }
    }
}

/// The arguments from `i` on with each `-m` and the value after it left out.
pub open spec fn without_memory(s: Seq<Seq<char>>, i: int) -> Seq<Seq<char>>
    decreases s.len() - i,
{
    if i >= s.len() || i < 0 {
        Seq::empty()
    } else if s[i] == "-m"@ {
        without_memory(s, if i + 2 <= s.len() { i + 2 } else { s.len() as int })
    } else {
        seq![s[i]] + without_memory(s, i + 1)
    }
}

proof fn lemma_without_memory_shift(p: Seq<Seq<char>>, r: Seq<Seq<char>>, k: int)
    requires
        0 <= k,
    ensures
        without_memory(p + r, p.len() + k) == without_memory(r, k),
    decreases r.len() - k,
{
    if k < r.len() {
        assert((p + r)[p.len() + k] == r[k]);
        if r[k] == "-m"@ {
            lemma_without_memory_shift(p, r, if k + 2 <= r.len() { k + 2 } else { r.len() as int });
        } else {
            lemma_without_memory_shift(p, r, k + 1);
        }
    }
}

proof fn lemma_without_memory_rewrite(s: Seq<Seq<char>>, i: int, mem: Seq<char>)
    requires
        0 <= i <= s.len(),
    ensures
        without_memory(memory_rewrite(s, i, mem), 0) == without_memory(s, i),
    decreases s.len() - i,
{
    if i < s.len() {
        if s[i] == "-m"@ {
            let next = if i + 2 <= s.len() { i + 2 } else { s.len() as int };
            lemma_without_memory_rewrite(s, next, mem);
            let r = memory_rewrite(s, next, mem);
            let pre = seq!["-m"@, mem];
            assert(memory_rewrite(s, i, mem) == pre + r);
            assert((pre + r)[0] == "-m"@);
            lemma_without_memory_shift(pre, r, 0);
        } else {
            lemma_without_memory_rewrite(s, i + 1, mem);
            let r = memory_rewrite(s, i + 1, mem);
            let pre = seq![s[i]];
            assert(memory_rewrite(s, i, mem) == pre + r);
            assert((pre + r)[0] == s[i]);
            lemma_without_memory_shift(pre, r, 0);
            assert(without_memory(pre + r, 0) == seq![s[i]] + without_memory(pre + r, 1));
        }
    }
}

proof fn lemma_without_memory_plain(o: Seq<Seq<char>>, t: Seq<Seq<char>>, i: int)
    requires
        0 <= i <= o.len(),
        !o.contains("-m"@),
    ensures
        without_memory(o + t, i) == o.subrange(i, o.len() as int) + without_memory(t, 0),
    decreases o.len() - i,
{
    if i < o.len() {
        assert((o + t)[i] == o[i]);
        assert(o[i] != "-m"@);
        lemma_without_memory_plain(o, t, i + 1);
        assert(o.subrange(i, o.len() as int) =~= seq![o[i]] + o.subrange(i + 1, o.len() as int));
    } else {
        lemma_without_memory_shift(o, t, 0);
        assert(o.subrange(i, o.len() as int) =~= Seq::<Seq<char>>::empty());
    }
}

/// Setting the memory size keeps every other argument, in order: with each
/// `-m <value>` pair left out, the arguments before and after are the same.
pub proof fn law_memory_keeps_other_args(s: Seq<Seq<char>>, mem: Seq<char>)
    ensures
        without_memory(with_memory(s, mem), 0) == without_memory(s, 0),
{
    lemma_without_memory_rewrite(s, 0, mem);
    let o = memory_rewrite(s, 0, mem);
    if !o.contains("-m"@) {
        let t = seq!["-m"@, mem];
        lemma_without_memory_plain(o, t, 0);
        reveal_strlit("-m");
        assert(t[0] == "-m"@);
        assert(without_memory(t, 0) == without_memory(t, 2));
        assert(without_memory(t, 2) == Seq::<Seq<char>>::empty());
        assert(without_memory(o, 0) == o.subrange(0, o.len() as int) + Seq::<Seq<char>>::empty()) by {
            lemma_without_memory_plain(o, Seq::<Seq<char>>::empty(), 0);
            assert(o + Seq::<Seq<char>>::empty() =~= o);
            assert(without_memory(Seq::<Seq<char>>::empty(), 0) == Seq::<Seq<char>>::empty());
        }
        assert(o.subrange(0, o.len() as int) + Seq::<Seq<char>>::empty() =~= o.subrange(0, o.len() as int) + without_memory(t, 0));
    }
}

proof fn lemma_rewrite_shape(s: Seq<Seq<char>>, i: int, mem: Seq<char>)
    requires
        0 <= i <= s.len(),
    ensures
        s.len() - i <= memory_rewrite(s, i, mem).len() <= s.len() - i + 1,
        (forall|j: int| i <= j < s.len() ==> s[j] != "-m"@) ==> memory_rewrite(s, i, mem) == s.subrange(i, s.len() as int),
        (exists|j: int| i <= j < s.len() && s[j] == "-m"@) ==> memory_rewrite(s, i, mem).contains("-m"@),
    decreases s.len() - i,
{
    if i < s.len() {
        if s[i] == "-m"@ {
            let next = if i + 2 <= s.len() { i + 2 } else { s.len() as int };
            lemma_rewrite_shape(s, next, mem);
            let o = memory_rewrite(s, i, mem);
            assert(o == seq!["-m"@, mem] + memory_rewrite(s, next, mem));
            assert(o[0] == "-m"@);
        } else {
            lemma_rewrite_shape(s, i + 1, mem);
            let r = memory_rewrite(s, i + 1, mem);
            let o = memory_rewrite(s, i, mem);
            assert(o == seq![s[i]] + r);
            if forall|j: int| i <= j < s.len() ==> s[j] != "-m"@ {
                assert(o =~= s.subrange(i, s.len() as int));
            }
            if exists|j: int| i <= j < s.len() && s[j] == "-m"@ {
                let j = choose|j: int| i <= j < s.len() && s[j] == "-m"@;
                assert(j > i);
                let k = choose|k: int| 0 <= k < r.len() && r[k] == "-m"@;
                assert(o[k + 1] == r[k]);
            }
        }
    } else {
        assert(memory_rewrite(s, i, mem) =~= s.subrange(i, s.len() as int));
    }
}

/// `-m <mem>` is appended exactly when the arguments had no `-m`; otherwise
/// the values are replaced in place, so the list grows by at most one (a
/// trailing `-m` that had no value gets one).
pub proof fn law_memory_appended_only_when_absent(s: Seq<Seq<char>>, mem: Seq<char>)
    ensures
        !s.contains("-m"@) ==> with_memory(s, mem) == s + seq!["-m"@, mem],
        s.contains("-m"@) ==> s.len() <= with_memory(s, mem).len() <= s.len() + 1,
{
    lemma_rewrite_shape(s, 0, mem);
    assert(s.subrange(0, s.len() as int) =~= s);
    if !s.contains("-m"@) {
        assert(forall|j: int| 0 <= j < s.len() ==> s[j] != "-m"@);
    } else {
        let j = choose|j: int| 0 <= j < s.len() && s[j] == "-m"@;
        assert(exists|j: int| 0 <= j < s.len() && s[j] == "-m"@);
    }
}

/// A fully built QEMU invocation.
#[derive(Debug, Clone, PartialEq, Eq)]
pub struct QemuInvocation {
    pub executable: String,
    pub args: Vec<String>,
}

/// The QEMU part of the orchestrator configuration.
#[derive(Debug, Clone, Default, PartialEq, Eq)]
pub struct QemuSettings {
    /// Candidate executables, tried in order.
    pub executables: Vec<String>,
    /// Arguments every run gets.
    pub args: Vec<String>,
    /// Arguments added when booting the reference image.
    pub reference_extra_args: Vec<String>,
    /// Arguments added when running without a display.
    pub headless_extra_args: Vec<String>,
    /// Whether the legacy test disk is attached when no disk is named.
    pub testdisk_enabled: bool,
    /// The legacy test disk image, relative to the repository root.
    pub testdisk_image: String,
    /// Drive argument templates for the test disk (`{image}` is its path).
    pub testdisk_drive_args: Vec<String>,
}

/// Why no QEMU command could be built.
#[derive(Debug, Clone, PartialEq, Eq)]
pub enum QemuError {
    /// None of the configured executables was found.
    QemuNotFound,
    /// A disk names neither `exfat` nor `ntfs`.
    UnknownFilesystem,
    /// The persistent image for this disk does not exist yet.
    DiskImageMissing(String),
}

/// The view of a refusal: its kind (in declaration order) and the disk name
/// of a missing image (empty for the other kinds).
pub open spec fn qemu_error_view(e: QemuError) -> (int, Seq<char>) {
    match e {
        QemuError::QemuNotFound => (0, Seq::empty()),
        QemuError::UnknownFilesystem => (1, Seq::empty()),
        QemuError::DiskImageMissing(d) => (2, d@),
    }
}

/// The first configured executable that `resolve_tool` finds.
pub fn resolve_qemu<F: Fn(&String) -> Option<String>>(executables: &Vec<String>, resolve_tool: F) -> (r: Result<String, QemuError>)
    requires
        forall|i: int| 0 <= i < executables@.len() ==> call_requires(resolve_tool, (&executables@[i],)),
    ensures
        match r {
            Ok(p) => exists|i: int| 0 <= i < executables@.len()
                && call_ensures(resolve_tool, (&executables@[i],), Some(p))
                && forall|j: int| 0 <= j < i ==> call_ensures(resolve_tool, (&executables@[j],), None::<String>),
            Err(e) => e == QemuError::QemuNotFound
                && forall|j: int| 0 <= j < executables@.len() ==> call_ensures(resolve_tool, (&executables@[j],), None::<String>),
        },
{
    let mut i: usize = 0;
    while i < executables.len()
        invariant
            i <= executables@.len(),
            forall|j: int| 0 <= j < executables@.len() ==> call_requires(resolve_tool, (&executables@[j],)),
            forall|j: int| 0 <= j < i ==> call_ensures(resolve_tool, (&executables@[j],), None::<String>),
        decreases executables.len() - i,
    {
        match resolve_tool(&executables[i]) {
            Some(p) => {
                return Ok(p);
            },
            None => {},
        }
        i = i + 1;
    }
    Err(QemuError::QemuNotFound)
}

/// The persistent image path of a filesystem kind under `root`.
pub open spec fn disk_image_path(root: Seq<char>, k: FilesystemKind) -> Seq<char> {
    join_path(join_path(root, IMAGES_DIR@), image_file_name(kind_name(k)))
}

/// Each known filesystem with its persistent image path under `root` and
/// whether `is_file` reports that image present.
pub fn list_known_disks<F: Fn(&String) -> bool>(root: &str, is_file: F) -> (r: Vec<(String, String, bool)>)
    requires
        forall|p: &String| call_requires(is_file, (p,)),
    ensures
        r@.len() == 2,
        forall|i: int| 0 <= i < 2 ==> {
            let k = if i == 0 { FilesystemKind::Exfat } else { FilesystemKind::Ntfs };
            &&& (#[trigger] r@[i]).0@ == kind_name(k)
            &&& r@[i].1@ == disk_image_path(root@, k)
            &&& call_ensures(is_file, (&r@[i].1,), r@[i].2)
        },
{
    let all = FilesystemKind::all();
    let mut r: Vec<(String, String, bool)> = Vec::new();
    let mut i: usize = 0;
    while i < all.len()
        invariant
            all@ == seq![FilesystemKind::Exfat, FilesystemKind::Ntfs],
            i <= 2,
            r@.len() == i,
            forall|p: &String| call_requires(is_file, (p,)),
            forall|j: int| 0 <= j < i ==> {
                let k = if j == 0 { FilesystemKind::Exfat } else { FilesystemKind::Ntfs };
                &&& (#[trigger] r@[j]).0@ == kind_name(k)
                &&& r@[j].1@ == disk_image_path(root@, k)
                &&& call_ensures(is_file, (&r@[j].1,), r@[j].2)
            },
        decreases 2 - i,
    {
        let fs = all[i];
        let name = String::from_str(fs.name());
        let path = persistent_image_path(root, fs.name());
        let exists = is_file(&path);
        r.push((name, path, exists));
        i = i + 1;
    }
    r
}

/// The drive argument for image `path` as IDE disk `index`.
pub open spec fn drive_text(path: Seq<char>, index: nat) -> Seq<char> {
    "file="@ + path + ",format=raw,if=ide,index="@ + decimal(index) + ",media=disk"@
}

/// The drive arguments for the named disks from position `i` on, or why one
/// cannot be attached; `present[i]` tells whether disk `i`'s image exists.
pub open spec fn disk_drives(disks: Seq<Seq<char>>, present: Seq<bool>, root: Seq<char>, i: int)
    -> Result<Seq<Seq<char>>, (int, Seq<char>)>
    decreases disks.len() - i,
{
    if i >= disks.len() || i < 0 {
        Ok(Seq::empty())
    } else {
        match fs_of_name(disks[i]) {
            None => Err((1, Seq::empty())),
            Some(k) => if !present[i] {
                Err((2, disks[i]))
            } else {
                match disk_drives(disks, present, root, i + 1) {
                    Ok(rest) => Ok(seq!["-drive"@, drive_text(disk_image_path(root, k), i as nat)] + rest),
                    Err(e) => Err(e),
                }
            },
        }
    }
}

/// `cond ? extra : nothing`.
pub open spec fn when(cond: bool, extra: Seq<Seq<char>>) -> Seq<Seq<char>> {
    if cond { extra } else { Seq::empty() }
}

/// The QEMU arguments for booting `floppy` with `opts`, or why they cannot be
/// built: the floppy, the configured arguments (memory set when asked), serial
/// and debug extras, the reference extras, the named disks in order (else the
/// legacy test disk, when enabled and present), and the headless extras.
pub open spec fn qemu_args(
    cfg: QemuSettings,
    root: Seq<char>,
    floppy: Seq<char>,
    opts: RunOptionsView,
    headless: bool,
    reference_mode: bool,
    disk_present: Seq<bool>,
    testdisk_present: bool,
) -> Result<Seq<Seq<char>>, (int, Seq<char>)> {
    let base = seq!["-fda"@, floppy] + texts(cfg.args@);
    let a1 = match opts.1 {
        Some(m) => with_memory(base, m),
        None => base,
    };
    let a2 = a1 + when(opts.2, seq!["-serial"@, "stdio"@])
        + when(opts.3, seq!["-d"@, "int,cpu_reset"@, "-D"@, join_path(join_path(root, "dev_build"@), "qemu-debug.log"@)])
        + when(reference_mode, texts(cfg.reference_extra_args@));
    match disk_drives(opts.0, disk_present, root, 0) {
        Err(e) => Err(e),
        Ok(drives) => {
            let td = join_path(root, cfg.testdisk_image@);
            let legacy = when(
                opts.0.len() == 0 && cfg.testdisk_enabled && testdisk_present,
                texts(cfg.testdisk_drive_args@).map_values(|t: Seq<char>| replace_from(t, 0, "{image}"@, td)),
            );
            Ok(a2 + drives + legacy + when(headless, texts(cfg.headless_extra_args@)))
        },
    }
}

/// The first two arguments survive the memory rewrite.
proof fn lemma_memory_keeps_front(s: Seq<Seq<char>>, mem: Seq<char>)
    requires
        s.len() >= 2,
        s[0] != "-m"@,
    ensures
        with_memory(s, mem).len() >= 2,
        with_memory(s, mem)[0] == s[0],
        with_memory(s, mem)[1] == s[1],
{
    let r1 = memory_rewrite(s, 1, mem);
    assert(memory_rewrite(s, 0, mem) == seq![s[0]] + r1);
    if s[1] == "-m"@ {
        assert(r1 == seq!["-m"@, mem] + memory_rewrite(s, if 3 <= s.len() { 3 } else { s.len() as int }, mem));
    } else {
        assert(r1 == seq![s[1]] + memory_rewrite(s, 2, mem));
    }
}

/// The drives of disks `i..` are `-drive <text>` pairs in disk order.
proof fn lemma_disk_drives_shape(disks: Seq<Seq<char>>, present: Seq<bool>, root: Seq<char>, i: int)
    requires
        0 <= i <= disks.len(),
        disk_drives(disks, present, root, i) is Ok,
    ensures
        disk_drives(disks, present, root, i)->Ok_0.len() == 2 * (disks.len() - i),
        forall|j: int| i <= j < disks.len() ==> {
            &&& fs_of_name(#[trigger] disks[j]) is Some
            &&& disk_drives(disks, present, root, i)->Ok_0[2 * (j - i)] == "-drive"@
            &&& disk_drives(disks, present, root, i)->Ok_0[2 * (j - i) + 1] == drive_text(
                disk_image_path(root, fs_of_name(disks[j]).unwrap()),
                j as nat,
            )
        },
    decreases disks.len() - i,
{
    if i < disks.len() {
        lemma_disk_drives_shape(disks, present, root, i + 1);
        let k = fs_of_name(disks[i]).unwrap();
        let rest = disk_drives(disks, present, root, i + 1)->Ok_0;
        let d = seq!["-drive"@, drive_text(disk_image_path(root, k), i as nat)] + rest;
        assert(disk_drives(disks, present, root, i)->Ok_0 == d);
        assert forall|j: int| i <= j < disks.len() implies {
            &&& fs_of_name(#[trigger] disks[j]) is Some
            &&& d[2 * (j - i)] == "-drive"@
            &&& d[2 * (j - i) + 1] == drive_text(disk_image_path(root, fs_of_name(disks[j]).unwrap()), j as nat)
        } by {
            if j > i {
                assert(d[2 * (j - i)] == rest[2 * (j - (i + 1))]);
                assert(d[2 * (j - i) + 1] == rest[2 * (j - (i + 1)) + 1]);
            }
        }
    }
}

/// Whether `a` holds, from `off` on, a `-drive <text>` pair for each disk of
/// `disks` in order.
pub open spec fn drives_at(a: Seq<Seq<char>>, off: int, disks: Seq<Seq<char>>, root: Seq<char>) -> bool {
    &&& 0 <= off
    &&& off + 2 * disks.len() <= a.len()
    &&& forall|i: int|
        0 <= i < disks.len() ==> a[off + 2 * i] == "-drive"@ && a[off + 2 * i + 1] == drive_text(
            disk_image_path(root, fs_of_name(#[trigger] disks[i]).unwrap()),
            i as nat,
        )
}

/// Built QEMU arguments begin with `-fda <floppy>`, carry one
/// `-drive file=<image>,format=raw,if=ide,index=<i>,media=disk` pair per named
/// disk in disk order, and carry `-serial stdio` when serial output is asked.
pub proof fn law_qemu_args_shape(
    cfg: QemuSettings,
    root: Seq<char>,
    floppy: Seq<char>,
    opts: RunOptionsView,
    headless: bool,
    reference_mode: bool,
    disk_present: Seq<bool>,
    testdisk_present: bool,
)
    requires
        qemu_args(cfg, root, floppy, opts, headless, reference_mode, disk_present, testdisk_present) is Ok,
    ensures
        ({
            let a = qemu_args(cfg, root, floppy, opts, headless, reference_mode, disk_present, testdisk_present)->Ok_0;
            &&& a.len() >= 2
            &&& a[0] == "-fda"@
            &&& a[1] == floppy
            &&& opts.2 ==> exists|p: int| 0 <= p && p + 1 < a.len() && #[trigger] a[p] == "-serial"@ && a[p + 1] == "stdio"@
            &&& exists|off: int| #[trigger] drives_at(a, off, opts.0, root)
        }),
{
    reveal_strlit("-fda");
    reveal_strlit("-m");
    let a = qemu_args(cfg, root, floppy, opts, headless, reference_mode, disk_present, testdisk_present)->Ok_0;
    let base = seq!["-fda"@, floppy] + texts(cfg.args@);
    let a1 = match opts.1 {
        Some(m) => with_memory(base, m),
        None => base,
    };
    assert(base[0] == "-fda"@ && base[1] == floppy);
    if let Some(m) = opts.1 {
        lemma_memory_keeps_front(base, m);
    }
    let a2 = a1 + when(opts.2, seq!["-serial"@, "stdio"@])
        + when(opts.3, seq!["-d"@, "int,cpu_reset"@, "-D"@, join_path(join_path(root, "dev_build"@), "qemu-debug.log"@)])
        + when(reference_mode, texts(cfg.reference_extra_args@));
    lemma_disk_drives_shape(opts.0, disk_present, root, 0);
    let drives = disk_drives(opts.0, disk_present, root, 0)->Ok_0;
    let td = join_path(root, cfg.testdisk_image@);
    let legacy = when(
        opts.0.len() == 0 && cfg.testdisk_enabled && testdisk_present,
        texts(cfg.testdisk_drive_args@).map_values(|t: Seq<char>| replace_from(t, 0, "{image}"@, td)),
    );
    assert(a == a2 + drives + legacy + when(headless, texts(cfg.headless_extra_args@)));
    assert(a[0] == a1[0] && a[1] == a1[1]);
    if opts.2 {
        let p = a1.len() as int;
        assert(a[p] == "-serial"@ && a[p + 1] == "stdio"@);
    }
    let off = a2.len() as int;
    assert forall|i: int| 0 <= i < opts.0.len() implies a[off + 2 * i] == "-drive"@ && a[off + 2 * i + 1]
        == drive_text(disk_image_path(root, fs_of_name(#[trigger] opts.0[i]).unwrap()), i as nat) by {
        assert(a[off + 2 * i] == drives[2 * i]);
        assert(a[off + 2 * i + 1] == drives[2 * i + 1]);
        assert(fs_of_name(opts.0[i]) is Some);
    }
    assert(drives_at(a, off, opts.0, root));
}

proof fn lemma_disk_drives_ok(disks: Seq<Seq<char>>, present: Seq<bool>, root: Seq<char>, i: int)
    requires
        0 <= i,
        present.len() == disks.len(),
        forall|j: int| 0 <= j < disks.len() ==> fs_of_name(#[trigger] disks[j]) is Some && present[j],
    ensures
        disk_drives(disks, present, root, i) is Ok,
    decreases disks.len() - i,
{
    if i < disks.len() {
        assert(fs_of_name(disks[i]) is Some && present[i]);
        lemma_disk_drives_ok(disks, present, root, i + 1);
    }
}

/// QEMU arguments can be built whenever every named disk is a known
/// filesystem whose image is present.
pub proof fn law_qemu_args_succeed(
    cfg: QemuSettings,
    root: Seq<char>,
    floppy: Seq<char>,
    opts: RunOptionsView,
    headless: bool,
    reference_mode: bool,
    disk_present: Seq<bool>,
    testdisk_present: bool,
)
    requires
        disk_present.len() == opts.0.len(),
        forall|j: int| 0 <= j < opts.0.len() ==> fs_of_name(#[trigger] opts.0[j]) is Some && disk_present[j],
    ensures
        qemu_args(cfg, root, floppy, opts, headless, reference_mode, disk_present, testdisk_present) is Ok,
{
    lemma_disk_drives_ok(opts.0, disk_present, root, 0);
}

/// Append copies of `extra` to `out`.
fn extend_texts(out: &mut Vec<String>, extra: &Vec<String>)
    ensures
        texts(final(out)@) == texts(old(out)@) + texts(extra@),
{
    let ghost start = texts(out@);
    let mut k: usize = 0;
    while k < extra.len()
        invariant
            k <= extra@.len(),
            texts(out@) == start + texts(extra@).subrange(0, k as int),
        decreases extra.len() - k,
    {
        let ghost before = texts(out@);
        out.push(extra[k].clone());
        assert(texts(out@) =~= before.push(extra@[k as int]@));
        assert(texts(extra@).subrange(0, k as int + 1) =~= texts(extra@).subrange(0, k as int).push(extra@[k as int]@));
        assert(texts(out@) =~= start + texts(extra@).subrange(0, k as int + 1));
        k = k + 1;
    }
    assert(texts(extra@).subrange(0, k as int) =~= texts(extra@));
}

/// Push one text onto an argument list.
fn push_text(out: &mut Vec<String>, s: &str)
    ensures
        texts(final(out)@) == texts(old(out)@).push(s@),
{
    out.push(String::from_str(s));
    assert(texts(out@) =~= texts(old(out)@).push(s@));
}

/// `acc` put in front of a successful result.
spec fn prepend_ok(acc: Seq<Seq<char>>, r: Result<Seq<Seq<char>>, (int, Seq<char>)>) -> Result<Seq<Seq<char>>, (int, Seq<char>)> {
    match r {
        Ok(rest) => Ok(acc + rest),
        Err(e) => Err(e),
    }
}

/// The drive arguments for the named disks (see [`disk_drives`]).
fn attach_disks(out: &mut Vec<String>, disks: &Vec<String>, present: &[bool], root: &str) -> (r: Result<(), QemuError>)
    requires
        present@.len() == disks@.len(),
    ensures
        match (r, disk_drives(texts(disks@), present@, root@, 0)) {
            (Ok(()), Ok(drives)) => texts(final(out)@) == texts(old(out)@) + drives,
            (Err(e), Err(ev)) => qemu_error_view(e) == ev,
            _ => false,
        },
{
    let ghost ds = texts(disks@);
    let ghost start = texts(out@);
    let mut i: usize = 0;
    let ghost mut acc: Seq<Seq<char>> = Seq::empty();
    assert(prepend_ok(acc, disk_drives(ds, present@, root@, 0)) == disk_drives(ds, present@, root@, 0)) by {
        match disk_drives(ds, present@, root@, 0) {
            Ok(rest) => { assert(acc + rest =~= rest); },
            Err(_) => {},
        }
    }
    while i < disks.len()
        invariant
            ds == texts(disks@),
            present@.len() == disks@.len(),
            i <= disks@.len(),
            texts(out@) == start + acc,
            disk_drives(ds, present@, root@, 0) == prepend_ok(acc, disk_drives(ds, present@, root@, i as int)),
        decreases disks.len() - i,
    {
        let d = disks[i].as_str();
        let fs = match FilesystemKind::parse(d) {
            Ok(fs) => fs,
            Err(_) => {
                return Err(QemuError::UnknownFilesystem);
            },
        };
        if !present[i] {
            return Err(QemuError::DiskImageMissing(String::from_str(d)));
        }
        let image = persistent_image_path(root, fs.name());
        let mut arg = String::from_str("file=");
        arg.append(image.as_str());
        arg.append(",format=raw,if=ide,index=");
        push_decimal(&mut arg, i as u64);
        arg.append(",media=disk");
        let ghost before = texts(out@);
        push_text(out, "-drive");
        let ghost mid = texts(out@);
        out.push(arg);
        assert(texts(out@) =~= mid.push(arg@));
        proof {
            let item = seq!["-drive"@, drive_text(disk_image_path(root@, fs), i as nat)];
            assert(arg@ =~= drive_text(disk_image_path(root@, fs), i as nat));
            assert(texts(out@) =~= before + item);
            match disk_drives(ds, present@, root@, i as int + 1) {
                Ok(rest) => {
                    assert(acc + (item + rest) =~= (acc + item) + rest);
                },
                Err(_) => {},
            }
            acc = acc + item;
            assert(texts(out@) =~= start + acc);
        }
        i = i + 1;
    }
    proof {
        assert(acc + Seq::<Seq<char>>::empty() =~= acc);
    }
    Ok(())
}

/// Append each test-disk template with `{image}` replaced by `image`.
fn push_filled(out: &mut Vec<String>, templates: &Vec<String>, image: &str)
    ensures
        texts(final(out)@) == texts(old(out)@)
            + texts(templates@).map_values(|t: Seq<char>| replace_from(t, 0, "{image}"@, image@)),
{
    proof {
        reveal_strlit("{image}");
    }
    let ghost start = texts(out@);
    let ghost filled = texts(templates@).map_values(|t: Seq<char>| replace_from(t, 0, "{image}"@, image@));
    let mut k: usize = 0;
    while k < templates.len()
        invariant
            k <= templates@.len(),
            "{image}"@.len() == 7,
            filled == texts(templates@).map_values(|t: Seq<char>| replace_from(t, 0, "{image}"@, image@)),
            texts(out@) == start + filled.subrange(0, k as int),
        decreases templates.len() - k,
    {
        let ghost before = texts(out@);
        out.push(replace_all(templates[k].as_str(), "{image}", image));
        assert(texts(out@) =~= before.push(filled[k as int]));
        assert(filled.subrange(0, k as int + 1) =~= filled.subrange(0, k as int).push(filled[k as int]));
        k = k + 1;
    }
    assert(filled.subrange(0, k as int) =~= filled);
}

/// Build the QEMU command for booting `floppy` (see [`qemu_args`]);
/// `executable` is the resolved QEMU binary, `disk_present[i]` whether the
/// image of the `i`-th named disk exists, `testdisk_present` whether the
/// legacy test disk image exists.
pub fn build_qemu_command(
    cfg: &QemuSettings,
    root: &str,
    floppy: &str,
    run_opts: &RunOptions,
    headless: bool,
    reference_mode: bool,
    executable: String,
    disk_present: &[bool],
    testdisk_present: bool,
) -> (r: Result<QemuInvocation, QemuError>)
    requires
        disk_present@.len() == run_opts.disks@.len(),
    ensures
        match (r, qemu_args(*cfg, root@, floppy@, run_options_view(*run_opts), headless, reference_mode, disk_present@, testdisk_present)) {
            (Ok(inv), Ok(a)) => inv.executable@ == executable@ && texts(inv.args@) == a,
            (Err(e), Err(ev)) => qemu_error_view(e) == ev,
            _ => false,
        },
{
    let ghost opts = run_options_view(*run_opts);
    let mut args: Vec<String> = Vec::new();
    push_text(&mut args, "-fda");
    push_text(&mut args, floppy);
    extend_texts(&mut args, &cfg.args);
    let ghost base = seq!["-fda"@, floppy@] + texts(cfg.args@);
    assert(texts(args@) =~= base);
    match &run_opts.memory {
        Some(mem) => {
            args = replace_memory_arg(args, mem.as_str());
        },
        None => {},
    }
    let ghost a1 = texts(args@);
    if run_opts.serial {
        push_text(&mut args, "-serial");
        push_text(&mut args, "stdio");
    }
    let ghost a_serial = texts(args@);
    assert(a_serial =~= a1 + when(opts.2, seq!["-serial"@, "stdio"@]));
    if run_opts.debug {
        let dev = resolve(root, "dev_build");
        let log = resolve(dev.as_str(), "qemu-debug.log");
        push_text(&mut args, "-d");
        push_text(&mut args, "int,cpu_reset");
        push_text(&mut args, "-D");
        push_text(&mut args, log.as_str());
    }
    let ghost a_debug = texts(args@);
    assert(a_debug =~= a_serial + when(opts.3, seq!["-d"@, "int,cpu_reset"@, "-D"@, join_path(join_path(root@, "dev_build"@), "qemu-debug.log"@)]));
    if reference_mode {
        extend_texts(&mut args, &cfg.reference_extra_args);
    }
    let ghost a2 = texts(args@);
    assert(a2 =~= a_debug + when(reference_mode, texts(cfg.reference_extra_args@)));
    match attach_disks(&mut args, &run_opts.disks, disk_present, root) {
        Ok(()) => {},
        Err(e) => {
            return Err(e);
        },
    }
    let ghost a3 = texts(args@);
    if run_opts.disks.len() == 0 && cfg.testdisk_enabled && testdisk_present {
        let td = resolve(root, cfg.testdisk_image.as_str());
        push_filled(&mut args, &cfg.testdisk_drive_args, td.as_str());
    }
    let ghost a4 = texts(args@);
    assert(a4 =~= a3 + when(
        opts.0.len() == 0 && cfg.testdisk_enabled && testdisk_present,
        texts(cfg.testdisk_drive_args@).map_values(|t: Seq<char>| replace_from(t, 0, "{image}"@, join_path(root@, cfg.testdisk_image@))),
    ));
    if headless {
        extend_texts(&mut args, &cfg.headless_extra_args);
    }
    assert(texts(args@) =~= a4 + when(headless, texts(cfg.headless_extra_args@)));
    Ok(QemuInvocation { executable, args })
}

} // verus!
