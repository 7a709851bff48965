[package]
name = "tree_magic"
version = "0.1.0"
edition = "2021"
publish = false

[dependencies]
petgraph = "*"
fnv = "1"
lazy_static = "1"
