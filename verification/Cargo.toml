[package]
name = "coin_problem"
version = "0.1.0"
edition = "2021"
publish = false

[dependencies]
rayon = "*"
pyo3 = "*"
numpy = "*"
wasm-bindgen = "*"
