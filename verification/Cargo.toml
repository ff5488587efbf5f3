[package]
name = "asciify"
version = "0.1.0"
edition = "2021"
publish = false

[dependencies]
ab_glyph = "0.2"
image = { version = "0.25", default-features = false, features = ["png", "jpeg"] }
