[package]
name = "fenrir"
version = "0.1.9"
edition = "2021"
publish = false

[dependencies]
image = "0.24"
tiff = "0.9"
pyo3 = { version = "0.21", features = ["extension-module"] }
tempfile = "3"
