[package]
name = "classic"
version = "0.1.0"
edition = "2021"
publish = false

[dependencies]
fnv = "1.0"
itertools = "0.10"
ndarray = "0.15"
pathfinding = "4"
rand = "0.8"
text_io = "0.1"
