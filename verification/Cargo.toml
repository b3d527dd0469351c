[package]
name = "rdst"
version = "0.1.0"
edition = "2021"
publish = false

[dependencies]
partition = "*"
itertools = "*"
rayon = "*"
arbitrary-chunks = "*"
try-mutex = "*"
block-pseudorand = "*"
