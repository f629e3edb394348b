[package]
name = "packmind"
version = "0.4.0"
edition = "2021"
publish = false

[dependencies]
anyhow = "1"
clap = { version = "4", features = ["derive"] }
hex = "0.4"
ignore = "0.4"
once_cell = "1"
rusqlite = { version = "0.32", features = ["bundled"] }
serde = { version = "1", features = ["derive"] }
serde_json = "1"
sha2 = "0.10"
tiktoken-rs = "*"
toml = "0.8"
tree-sitter = "0.24"
tree-sitter-java = "0.23"
tree-sitter-python = "0.23"
tree-sitter-typescript = "0.23"
ulid = "1"

[dev-dependencies]
tempfile = "3"
