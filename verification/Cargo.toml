[package]
name = "arco"
version = "0.1.0"
edition = "2021"
publish = false

[dependencies]
pyo3 = "*"
serde_json = "1"
