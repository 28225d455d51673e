[package]
name = "lunula"
version = "0.1.0"
edition = "2021"
publish = false

[dependencies]
riscv = "*"
sbi-rt = "*"
qemu-exit = "*"
critical-section = "*"
device_tree_parser = "*"
embedded-alloc = "*"
thiserror = "*"
anyhow = "*"
argh = "*"
ignore = "*"
toml_edit = "*"
tracing = "*"
tracing-subscriber = { version = "*", features = ["env-filter", "fmt", "local-time"] }
time = { version = "*", features = ["macros", "formatting", "local-offset"] }
