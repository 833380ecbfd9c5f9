[package]
name = "repo_mapper"
version = "0.1.0"
edition = "2021"
publish = false

[dependencies]
regex = "*"
itertools = "*"
colored = "*"
walkdir = "*"
rayon = "*"
pyo3 = "*"
