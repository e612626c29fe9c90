[package]
name = "icb"
version = "0.1.0"
edition = "2021"
publish = false

[dependencies]
petgraph = "*"
tree-sitter = "*"
tree-sitter-python = "*"
tree-sitter-go = "*"
tree-sitter-ruby = "*"
tree-sitter-rust = "*"
tree-sitter-cpp = "*"
serde = { version = "1", features = ["derive"] }
serde_json = "1"
bincode = "1"
zstd = "*"
walkdir = "2"
clap = { version = "4", features = ["derive"] }
anyhow = "1"
env_logger = "*"
log = "0.4"
tempfile = "3"
clang-sys = "1"
rayon = "1"
thiserror = "*"
