[package]
name = "deadlock_detector"
version = "0.1.0"
edition = "2021"
publish = false

[dependencies]
petgraph = "0.6"
serde = "1"
serde_json = "1"
tree-sitter = "0.20"
tree-sitter-rust = "0.20"
tree-sitter-traversal = "0.1"
walkdir = "2"
