use lunula::workspace::{default_targets, symlink_changes, WorkspaceCommand};

#[test]
fn default_targets_list() {
    assert_eq!(default_targets(), vec!["riscv64gc-unknown-none-elf".to_string()]);
}

#[test]
fn requested_targets_deduplicated() {
    let cmd = WorkspaceCommand {
        target: vec!["a".to_string(), "b".to_string(), "a".to_string()],
        default: true,
    };
    let mut got = cmd.requested_targets();
    got.sort();
    assert_eq!(got, vec!["a".to_string(), "b".to_string(), "riscv64gc-unknown-none-elf".to_string()]);
}

#[test]
fn requested_targets_default_twice() {
    let cmd = WorkspaceCommand {
        target: vec!["riscv64gc-unknown-none-elf".to_string()],
        default: true,
    };
    assert_eq!(cmd.requested_targets(), vec!["riscv64gc-unknown-none-elf".to_string()]);
}

#[test]
fn requested_targets_none() {
    let cmd = WorkspaceCommand { target: vec![], default: false };
    assert!(cmd.requested_targets().is_empty());
}

fn names(list: &[&str]) -> Vec<Vec<u8>> {
    list.iter().map(|name| name.as_bytes().to_vec()).collect()
}

#[test]
fn symlinks_to_add_and_remove() {
    let expected = names(&["Cargo.toml", "src", "xtask", "lunula"]);
    let actual = names(&["src", "old-crate", "Cargo.toml", "notes"]);
    let (missing, obsolete) = symlink_changes(&expected, &actual);
    assert_eq!(missing, names(&["xtask", "lunula"]));
    assert_eq!(obsolete, names(&["old-crate", "notes"]));
}

#[test]
fn symlinks_already_in_place() {
    let expected = names(&["a", "b"]);
    let actual = names(&["b", "a"]);
    let (missing, obsolete) = symlink_changes(&expected, &actual);
    assert!(missing.is_empty());
    assert!(obsolete.is_empty());
}

#[test]
fn symlinks_for_a_new_workspace() {
    let expected = names(&["a", "ab"]);
    let (missing, obsolete) = symlink_changes(&expected, &vec![]);
    assert_eq!(missing, expected);
    assert!(obsolete.is_empty());
    let actual = vec![vec![0xff, 0xfe]];
    let (missing, obsolete) = symlink_changes(&vec![], &actual);
    assert!(missing.is_empty());
    assert_eq!(obsolete, actual);
}
