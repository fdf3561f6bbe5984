[package]
name = "miden_tools"
version = "0.1.0"
edition = "2021"
publish = false
rust-version = "1.95"

[dependencies]
anyhow = "1"
async-trait = "0.1"
clap = { version = "4", default-features = false, features = ["derive", "error-context", "help", "std", "usage"] }
miden-protocol = { version = "=0.15.3", default-features = false }
rand = "0.10"
rustix = { version = "1", features = ["fs"] }
tokio = { version = "1", features = ["sync", "time"] }
toml = "0.9"
tracing = "0.1"
tree-sitter = "=0.26.13"
tree-sitter-rust = "=0.24.2"
