use lunula::cargo_config::{workspace_cargo_config, BuildItem, ConfigError};

#[test]
fn build_target_is_added_to_the_build_table() {
    let config = "[build]\nrustflags = [\"-Cforce-frame-pointers\"]\n";
    let got = workspace_cargo_config(config, "riscv64gc-unknown-none-elf").unwrap();
    assert_eq!(
        got,
        "[build]\nrustflags = [\"-Cforce-frame-pointers\"]\ntarget = \"riscv64gc-unknown-none-elf\"\n"
    );
}

#[test]
fn build_target_replaces_the_old_target_and_keeps_comments() {
    let config = "# shared settings\n[build]\ntarget = \"x86_64-unknown-linux-gnu\"\n";
    let got = workspace_cargo_config(config, "riscv64gc-unknown-none-elf").unwrap();
    assert!(got.starts_with("# shared settings\n[build]\n"));
    assert!(got.contains("target = \"riscv64gc-unknown-none-elf\""));
    assert!(!got.contains("x86_64-unknown-linux-gnu"));
}

#[test]
fn missing_build_table_is_created() {
    let config = "[alias]\nk = \"run\"\n";
    let got = workspace_cargo_config(config, "riscv64gc-unknown-none-elf").unwrap();
    assert!(got.contains("target = \"riscv64gc-unknown-none-elf\""));
    assert!(got.contains("k = \"run\""));
    assert!(got.contains("build"));
}

#[test]
fn build_that_is_not_a_table_is_refused() {
    let got = workspace_cargo_config("build = 1\n", "riscv64gc-unknown-none-elf");
    assert!(matches!(got, Err(ConfigError::BuildNotTable)));
}

#[test]
fn invalid_toml_is_refused() {
    let got = workspace_cargo_config("[[[build", "riscv64gc-unknown-none-elf");
    assert!(matches!(got, Err(ConfigError::NotToml(_))));
}

#[test]
fn keys_go_under_tables_only() {
    assert!(BuildItem::Missing.takes_keys());
    assert!(BuildItem::Table.takes_keys());
    assert!(BuildItem::InlineTable.takes_keys());
    assert!(!BuildItem::Value.takes_keys());
    assert!(!BuildItem::ArrayOfTables.takes_keys());
}

#[test]
fn array_of_build_tables_is_refused() {
    let got = workspace_cargo_config("[[build]]\nx = 1\n", "riscv64gc-unknown-none-elf");
    assert!(matches!(got, Err(ConfigError::BuildNotTable)));
}

#[test]
fn inline_build_table_takes_the_target() {
    let got = workspace_cargo_config("build = { jobs = 2 }\n", "riscv64gc-unknown-none-elf").unwrap();
    assert!(got.contains("target = \"riscv64gc-unknown-none-elf\""));
    assert!(got.contains("jobs = 2"));
}
