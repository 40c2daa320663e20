[package]
name = "simple_sort"
version = "0.1.0"
edition = "2021"
publish = false

[dependencies]
nalgebra = "0.33"
pyo3 = { version = "0.25", features = ["abi3-py39", "extension-module"] }
