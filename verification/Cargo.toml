[package]
name = "nearest_palette"
version = "0.1.0"
edition = "2021"
publish = false

[dependencies]
archmage = "*"
magetypes = "*"
rgb = "0.8"
