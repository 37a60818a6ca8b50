[package]
name = "diagram_algebra"
version = "0.1.0"
edition = "2021"
publish = false

[dependencies]
either = "1"
itertools = "0.13"
num = "0.4"
permutations = "*"
petgraph = "0.6"
rand = "0.8"
