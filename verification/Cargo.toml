[package]
name = "wae"
version = "0.0.26"
edition = "2021"
publish = false

[dependencies]
globset = "0.4"
serde = { version = "1", features = ["derive"] }
serde_json = "1"
yaml_serde = "*"
tree-sitter = "*"
tree-sitter-typescript = "*"
