[package]
name = "dioxide"
version = "0.1.0"
edition = "2021"
publish = false

[dependencies]
anyhow = "1"
clap = { version = "4", features = ["derive"] }
colored = "2"
env_logger = "0.11"
regex = "1"
serde = { version = "1", features = ["derive"] }
toml = "0.8"
tree-sitter = "0.20"
tree-sitter-go = "0.20"
walkdir = "2"
