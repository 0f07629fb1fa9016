[package]
name = "hammingbird"
version = "0.5.0"
edition = "2021"
publish = false

[dependencies]
hashbrown = "0.15"
rustc-hash = "2"
rayon = "1"
pyo3 = "0.22"
numpy = "0.22"
