[package]
name = "image_dedup"
version = "1.1.0"
edition = "2021"
publish = false

[dependencies]
base64 = "*"
hex = "*"
image = { version = "0.25", default-features = false, features = ["jpeg", "png", "gif", "bmp", "tiff", "webp"] }
md-5 = "*"
once_cell = "*"
pyo3 = { version = "*", features = ["extension-module", "abi3-py38"] }
rayon = "*"
serde = { version = "1", features = ["derive"] }
serde_json = "1"
tokio = { version = "1", features = ["rt"] }
trash = "*"
walkdir = "2"
