[package]
name = "impact_core"
version = "0.1.0"
edition = "2021"
publish = false

[dependencies]
anyhow = "1"
blake3 = "1"
globset = "0.4"
ignore = "0.4"
rusqlite = { version = "*", features = ["bundled"] }
serde = { version = "1", features = ["derive"] }
serde_json = "1"
thiserror = "*"
toml = "*"
tree-sitter = "*"
tree-sitter-go = "*"
tree-sitter-cpp = "*"
