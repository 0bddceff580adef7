[package]
name = "runa"
version = "0.5.1"
edition = "2021"
publish = false

[dependencies]
glam = "=0.29.3"
image = { version = "=0.25.10", default-features = false, features = ["bmp", "dds", "exr", "ff", "gif", "hdr", "ico", "jpeg", "png", "pnm", "qoi", "tga", "tiff", "webp"] }
serde = { version = "=1.0.229", features = ["derive"] }
ron = "=0.8.1"
inventory = "=0.3.25"
