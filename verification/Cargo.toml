[package]
name = "phylotree"
version = "0.1.0"
edition = "2021"
publish = false

[dependencies]
itertools = "*"
clap = { version = "4", features = ["derive"] }
rand = "0.8"
tree_iterators_rs = "*"
