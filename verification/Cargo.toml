[package]
name = "parse_rust"
version = "0.1.0"
edition = "2021"
publish = false

[dependencies]
regex = "1"
once_cell = "1"
chrono = "0.4"
pyo3 = "0.23"
