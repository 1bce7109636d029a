[package]
name = "shors_algorithm"
version = "0.1.0"
edition = "2021"
publish = false

[dependencies]
num-integer = "0.1"
pyo3 = { version = "0.20", features = ["extension-module", "abi3-py37"] }
