[package]
name = "linear-algebra-compiler"
version = "0.1.0"
edition = "2021"
publish = false

[dependencies]
egglog-experimental = "*"
indexmap = "2"
