[package]
name = "weggli"
version = "0.2.4"
edition = "2021"
publish = false

[dependencies]
binaryninja = "*"
clap = "=2.34.0"
colored = "=2.2.0"
indicatif = "0.17"
log = "=0.4.35"
nix = "=0.23.2"
rayon = "=1.12.0"
regex = "=1.13.1"
rustyline = "=9.1.2"
simplelog = "=0.10.2"
tree-sitter = "=0.20.10"
walkdir = "=2.5.0"

[dev-dependencies]
tree-sitter-c = "=0.20.8"
tree-sitter-cpp = "=0.20.5"
