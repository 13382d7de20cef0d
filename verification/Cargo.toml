[package]
name = "auto_lsp"
version = "0.1.0"
edition = "2021"
publish = false

[dependencies]
tree-sitter = "*"
streaming-iterator = "*"
lsp-types = "*"
walkdir = "*"
anyhow = "*"

[dev-dependencies]
tree-sitter-python = "*"
