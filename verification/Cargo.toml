[package]
name = "dataflow"
version = "0.1.0"
edition = "2021"
publish = false

[dependencies]
anyhow = "=1.0.104"
streaming-iterator = "=0.1.9"
tree-sitter = "=0.27.0"
tree-sitter-go = "=0.25.0"
tree-sitter-java = "=0.23.5"
tree-sitter-python = "=0.25.0"
walkdir = "=2.5.0"
