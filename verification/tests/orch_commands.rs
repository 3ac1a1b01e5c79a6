use kolibri_utils::orch::commands::{command_registry, find_command};

#[test]
fn registry_has_mkfs_and_clean() {
    let reg = command_registry();
    assert!(reg.iter().any(|c| c.name == "mkfs"));
    assert!(reg.iter().any(|c| c.name == "clean"));
    assert!(reg.iter().any(|c| c.name == "script"));
}

#[test]
fn find_command_aliases() {
    assert!(find_command("qemu").is_some());
    assert!(find_command("original").is_some());
    assert!(find_command("nonexistent").is_none());
}

#[test]
fn registry_order_and_aliases() {
    let reg = command_registry();
    let names: Vec<&str> = reg.iter().map(|c| c.name).collect();
    assert_eq!(
        names,
        vec!["run", "build", "image", "mkfs", "clean", "help", "script", "tool", "doctor", "ref", "testdisk"]
    );
    assert_eq!(reg[0].aliases, &["qemu"]);
    assert_eq!(reg[5].aliases, &["?"]);
    assert_eq!(reg[9].aliases, &["original"]);
}

#[test]
fn lookup_resolves_aliases_to_their_command() {
    assert_eq!(find_command("qemu").unwrap().name, "run");
    assert_eq!(find_command("original").unwrap().name, "ref");
    assert_eq!(find_command("?").unwrap().name, "help");
    assert_eq!(find_command("mkfs").unwrap().name, "mkfs");
    assert!(find_command("MKFS").is_none());
    assert!(find_command("").is_none());
}

#[test]
fn every_registered_name_finds_itself() {
    for c in command_registry() {
        assert_eq!(find_command(c.name).unwrap().name, c.name);
        for a in c.aliases {
            assert_eq!(find_command(a).unwrap().name, c.name);
        }
    }
}
