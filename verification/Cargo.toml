[package]
name = "fode"
version = "0.1.0"
edition = "2021"
publish = false

[dependencies]
serde = { version = "1", features = ["derive"] }
tokio = { version = "1", features = ["rt"] }
tree-sitter = "*"
tree-sitter-go = "*"
tree-sitter-javascript = "*"
tree-sitter-python = "*"
tree-sitter-rust = "*"
walkdir = "2"
