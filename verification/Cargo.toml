[package]
name = "h11"
version = "0.1.0"
edition = "2021"
publish = false

[dependencies]
pyo3 = { version = "0.20", features = ["extension-module", "abi3-py37"] }

[dev-dependencies]
regex = "1"
