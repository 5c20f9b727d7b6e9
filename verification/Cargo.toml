[package]
name = "resolve_core"
version = "0.1.0"
edition = "2021"
rust-version = "1.95"
publish = false

[dependencies]
cargo-platform = "*"
cargo-util = "=0.1.2"
serde = { version = "*", features = ["derive"] }
toml_edit = "*"
