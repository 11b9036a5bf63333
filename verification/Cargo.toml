[package]
name = "inkwordle"
version = "0.1.0"
edition = "2021"
publish = false

[dependencies]
ab_glyph = "0.2"
libc = "0.2"
tract-onnx = "*"
