[package]
name = "binary_star"
version = "0.1.0"
edition = "2021"
publish = false

[dependencies]
glam = "0.27"
macroquad = { version = "0.4", default-features = false }
