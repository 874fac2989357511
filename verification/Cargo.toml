[package]
name = "unit_bpe"
version = "0.1.0"
edition = "2021"
publish = false

[dependencies]
rayon = "*"
pyo3 = "*"
log = "*"
env_logger = "*"
