[package]
name = "gdb_mi"
version = "0.1.0"
edition = "2021"
publish = false

[dependencies]
unsegen = "=0.2.5"
unsegen_jsonviewer = "=0.2.0"
syntect = { version = "=5.3.0", default-features = false }
pty = "=0.2.2"
