[package]
name = "himark"
version = "0.1.0"
edition = "2021"
publish = false

[dependencies]
skia-safe = "*"
tree-sitter-cmake = "*"
tree-sitter-hcl = "*"
tree-sitter-julia = "*"
tree-sitter-make = "*"
tree-sitter-nix = "*"
tree-sitter-odin = "*"
