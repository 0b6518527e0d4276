[package]
name = "flowgraph"
version = "0.1.0"
edition = "2021"
publish = false

[dependencies]
hash-chain = "*"
itertools = "0.10"
miette = "5"
petgraph = "0.6"
