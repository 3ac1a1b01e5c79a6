//! The orchestrator's command table and lookup by name or alias.

use vstd::prelude::*;
use crate::orch::text::str_eq;

verus! {

/// A registered orchestrator command, as help and discovery show it.
#[derive(Debug, Clone, Copy)]
pub struct CommandInfo {
    pub name: &'static str,
    pub aliases: &'static [&'static str],
    pub summary: &'static str,
    pub detail: &'static str,
}

/// The texts of a command: name, aliases, summary, detail.
pub open spec fn info_view(c: CommandInfo) -> (Seq<char>, Seq<Seq<char>>, Seq<char>, Seq<char>) {
    (c.name@, c.aliases@.map_values(|a: &str| a@), c.summary@, c.detail@)
}

/// The registered commands, in help order.
pub open spec fn registry_spec() -> Seq<(Seq<char>, Seq<Seq<char>>, Seq<char>, Seq<char>)> {
    seq![
        ("run"@, seq!["qemu"@], "Build kernel, package fresh boot image, launch QEMU"@, "Full pipeline. Accepts --disk:TYPE, --memory:SIZE, --serial, --debug."@),
        ("build"@, Seq::<Seq<char>>::empty(), "Build Rust blobs and assemble kernel.mnt"@, "Rust freestanding build + FASM assemble."@),
        ("image"@, Seq::<Seq<char>>::empty(), "Build kernel and create disposable boot image"@, "Outputs to dev_build/ (configured in config.toml)."@),
        ("mkfs"@, Seq::<Seq<char>>::empty(), "Create or reuse persistent filesystem regression images"@, "Usage: mkfs <exfat|ntfs> <size> [--force]\nOutput: ./images/{fs}-image.img"@),
        ("clean"@, Seq::<Seq<char>>::empty(), "Remove generated artifacts under build/ and dev_build/"@, "Never removes ./images/ persistent regression disks."@),
        ("help"@, seq!["?"@], "Show commands, scripts, and tools"@, "Usage: help [topic] — topics: run, mkfs, scripts, tools, …"@),
        ("script"@, Seq::<Seq<char>>::empty(), "Run a Rhai workflow from orch/scripts/"@, "Usage: script <name> [args…]"@),
        ("tool"@, Seq::<Seq<char>>::empty(), "Invoke a reusable utility under ./tools/"@, "Usage: tool <path-under-tools> [args…]"@),
        ("doctor"@, Seq::<Seq<char>>::empty(), "Verify tools, paths, and migration registry"@, "Checks FASM, cargo, python, qemu, blobs, gates."@),
        ("ref"@, seq!["original"@], "Boot immutable reference image in QEMU (-snapshot)"@, "No rebuild. Optional --disk:TYPE extras like run."@),
        ("testdisk"@, Seq::<Seq<char>>::empty(), "Legacy: ensure exFAT testdisk (prefer mkfs exfat)"@, "Deprecated in favor of `mkfs exfat`. Still supported."@),
    ]
}

/// Whether a command's name or one of its aliases is `name`.
pub open spec fn entry_matches(e: (Seq<char>, Seq<Seq<char>>, Seq<char>, Seq<char>), name: Seq<char>) -> bool {
    e.0 == name || e.1.contains(name)
}

/// All orchestrator commands, in help order.
pub fn command_registry() -> (r: Vec<CommandInfo>)
    ensures
        r@.map_values(|c: CommandInfo| info_view(c)) == registry_spec(),
{
    let r = vec![
        CommandInfo {
            name: "run",
            aliases: &["qemu"],
            summary: "Build kernel, package fresh boot image, launch QEMU",
            detail: "Full pipeline. Accepts --disk:TYPE, --memory:SIZE, --serial, --debug.",
        },
        CommandInfo {
            name: "build",
            aliases: &[],
            summary: "Build Rust blobs and assemble kernel.mnt",
            detail: "Rust freestanding build + FASM assemble.",
        },
        CommandInfo {
            name: "image",
            aliases: &[],
            summary: "Build kernel and create disposable boot image",
            detail: "Outputs to dev_build/ (configured in config.toml).",
        },
        CommandInfo {
            name: "mkfs",
            aliases: &[],
            summary: "Create or reuse persistent filesystem regression images",
            detail: "Usage: mkfs <exfat|ntfs> <size> [--force]\nOutput: ./images/{fs}-image.img",
        },
        CommandInfo {
            name: "clean",
            aliases: &[],
            summary: "Remove generated artifacts under build/ and dev_build/",
            detail: "Never removes ./images/ persistent regression disks.",
        },
        CommandInfo {
            name: "help",
            aliases: &["?"],
            summary: "Show commands, scripts, and tools",
            detail: "Usage: help [topic] — topics: run, mkfs, scripts, tools, …",
        },
        CommandInfo {
            name: "script",
            aliases: &[],
            summary: "Run a Rhai workflow from orch/scripts/",
            detail: "Usage: script <name> [args…]",
        },
        CommandInfo {
            name: "tool",
            aliases: &[],
            summary: "Invoke a reusable utility under ./tools/",
            detail: "Usage: tool <path-under-tools> [args…]",
        },
        CommandInfo {
            name: "doctor",
            aliases: &[],
            summary: "Verify tools, paths, and migration registry",
            detail: "Checks FASM, cargo, python, qemu, blobs, gates.",
        },
        CommandInfo {
            name: "ref",
            aliases: &["original"],
            summary: "Boot immutable reference image in QEMU (-snapshot)",
            detail: "No rebuild. Optional --disk:TYPE extras like run.",
        },
        CommandInfo {
            name: "testdisk",
            aliases: &[],
            summary: "Legacy: ensure exFAT testdisk (prefer mkfs exfat)",
            detail: "Deprecated in favor of `mkfs exfat`. Still supported.",
        },
    ];
    assert(r[0].aliases@.map_values(|a: &str| a@) =~= registry_spec()[0].1);
    assert(r[1].aliases@.map_values(|a: &str| a@) =~= registry_spec()[1].1);
    assert(r[2].aliases@.map_values(|a: &str| a@) =~= registry_spec()[2].1);
    assert(r[3].aliases@.map_values(|a: &str| a@) =~= registry_spec()[3].1);
    assert(r[4].aliases@.map_values(|a: &str| a@) =~= registry_spec()[4].1);
    assert(r[5].aliases@.map_values(|a: &str| a@) =~= registry_spec()[5].1);
    assert(r[6].aliases@.map_values(|a: &str| a@) =~= registry_spec()[6].1);
    assert(r[7].aliases@.map_values(|a: &str| a@) =~= registry_spec()[7].1);
    assert(r[8].aliases@.map_values(|a: &str| a@) =~= registry_spec()[8].1);
    assert(r[9].aliases@.map_values(|a: &str| a@) =~= registry_spec()[9].1);
    assert(r[10].aliases@.map_values(|a: &str| a@) =~= registry_spec()[10].1);
    assert(r@.map_values(|c: CommandInfo| info_view(c)) =~= registry_spec());
    r
}

/// Whether one of `aliases` is `name`.
fn alias_listed(aliases: &[&str], name: &str) -> (r: bool)
    ensures
        r == aliases@.map_values(|a: &str| a@).contains(name@),
{
    let ghost v = aliases@.map_values(|a: &str| a@);
    let mut k: usize = 0;
    while k < aliases.len()
        invariant
            k <= aliases@.len(),
            v == aliases@.map_values(|a: &str| a@),
            forall|j: int| 0 <= j < k ==> v[j] != name@,
        decreases aliases.len() - k,
    {
        if str_eq(aliases[k], name) {
            assert(v[k as int] == name@);
            return true;
        }
        k = k + 1;
    }
    proof {
        if v.contains(name@) {
            let j = choose|j: int| 0 <= j < v.len() && v[j] == name@;
            assert(v[j] == name@);
        }
    }
    false
}

/// The first command whose name or alias is `name`.
pub fn find_command(name: &str) -> (r: Option<CommandInfo>)
    ensures
        match r {
            Some(c) => exists|i: int|
                0 <= i < registry_spec().len() && info_view(c) == registry_spec()[i]
                    && entry_matches(registry_spec()[i], name@)
                    && forall|j: int| 0 <= j < i ==> !entry_matches(#[trigger] registry_spec()[j], name@),
            None => forall|i: int| 0 <= i < registry_spec().len() ==> !entry_matches(#[trigger] registry_spec()[i], name@),
        },
{
    let reg = command_registry();
    let ghost spec = registry_spec();
    let mut i: usize = 0;
    while i < reg.len()
        invariant
            reg@.map_values(|c: CommandInfo| info_view(c)) == spec,
            spec == registry_spec(),
            i <= reg.len(),
            forall|j: int| 0 <= j < i ==> !entry_matches(#[trigger] spec[j], name@),
        decreases reg.len() - i,
    {
        let c = reg[i];
        assert(info_view(c) == spec[i as int]);
        if str_eq(c.name, name) || alias_listed(c.aliases, name) {
            return Some(c);
        }
        i = i + 1;
    }
    None
}

/// Length, first and last character of a text.
spec fn text_sig(n: Seq<char>) -> (int, char, char) {
    (n.len() as int, n[0], n[n.len() - 1])
}

/// The command that a registered name or alias with this length, first and
/// last character belongs to.
spec fn owner_of_sig(s: (int, char, char)) -> int {
    if s == (3int, 'r', 'n') { 0 } else
    if s == (4int, 'q', 'u') { 0 } else
    if s == (5int, 'b', 'd') { 1 } else
    if s == (5int, 'i', 'e') { 2 } else
    if s == (4int, 'm', 's') { 3 } else
    if s == (5int, 'c', 'n') { 4 } else
    if s == (4int, 'h', 'p') { 5 } else
    if s == (1int, '?', '?') { 5 } else
    if s == (6int, 's', 't') { 6 } else
    if s == (4int, 't', 'l') { 7 } else
    if s == (6int, 'd', 'r') { 8 } else
    if s == (3int, 'r', 'f') { 9 } else
    if s == (8int, 'o', 'l') { 9 } else
    if s == (8int, 't', 'k') { 10 } else
    { -1 }
}

proof fn lemma_owner(i: int, name: Seq<char>)
    requires
        0 <= i < registry_spec().len(),
        entry_matches(registry_spec()[i], name),
    ensures
        owner_of_sig(text_sig(name)) == i,
{
    reveal_strlit("run");
    reveal_strlit("qemu");
    reveal_strlit("build");
    reveal_strlit("image");
    reveal_strlit("mkfs");
    reveal_strlit("clean");
    reveal_strlit("help");
    reveal_strlit("?");
    reveal_strlit("script");
    reveal_strlit("tool");
    reveal_strlit("doctor");
    reveal_strlit("ref");
    reveal_strlit("original");
    reveal_strlit("testdisk");
    let e = registry_spec()[i];
    if e.0 != name {
        let k = choose|k: int| 0 <= k < e.1.len() && e.1[k] == name;
        assert(e.1[k] == name);
    }
}

/// A name or alias belongs to one command only, so looking up any
/// registered name or alias finds the command that lists it.
pub proof fn law_names_are_unique(i: int, j: int, name: Seq<char>)
    requires
        0 <= i < registry_spec().len(),
        0 <= j < registry_spec().len(),
        entry_matches(registry_spec()[i], name),
        entry_matches(registry_spec()[j], name),
    ensures
        i == j,
{
    lemma_owner(i, name);
    lemma_owner(j, name);
}

} // verus!
