[package]
name = "code_spellcheck"
version = "0.1.0"
edition = "2021"
publish = false

[dependencies]
anyhow = "=1.0.104"
blake3 = "=1.8.7"
clap = { version = "=4.6.7", features = ["derive"] }
flate2 = "=1.1.10"
fst = { version = "=0.4.7", features = ["levenshtein"] }
glob = "=0.3.4"
ignore = "=0.4.33"
miette = { version = "=7.6.0", features = ["fancy"] }
serde = { version = "=1.0.229", features = ["derive"] }
serde_json = "=1.0.151"
strsim = "=0.11.1"
tokio = { version = "=1.53.2", features = ["rt-multi-thread", "macros", "sync", "fs", "io-util", "time"] }
tree-sitter = "=0.25.10"
tree-sitter-c = "=0.24.2"
tree-sitter-go = "=0.25.0"
tree-sitter-html = "=0.23.2"
tree-sitter-javascript = "=0.25.0"
tree-sitter-md = "=0.5.3"
tree-sitter-python = "=0.25.0"
tree-sitter-ruby = "=0.23.1"
tree-sitter-rust = "=0.24.2"
tree-sitter-toml-ng = "=0.7.0"
