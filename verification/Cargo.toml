[package]
name = "bionet_rs"
version = "0.1.0"
edition = "2021"
publish = false

[dependencies]
statrs = "*"
rayon = "*"
ndarray = "*"
ndarray-stats = "*"
csv = "*"
ahash = "*"
webgestalt_lib = "*"
