[package]
name = "stamps_native"
version = "0.1.0"
edition = "2021"
publish = false

[dependencies]
num-complex = "0.4"
numpy = "*"
pyo3 = "*"
rayon = "1"
rustfft = "6"
