[package]
name = "fnscan"
version = "0.1.0"
edition = "2021"
publish = false

[dependencies]
anyhow = "1"
clap = { version = "4", features = ["derive"] }
tracing = "0.1"
tracing-subscriber = "0.3"
tree-sitter = "0.24"
tree-sitter-rust = "0.23"
