[package]
name = "depth_anything"
version = "0.1.0"
edition = "2021"
publish = false

[dependencies]
half = "2"
memmap2 = "0.9"
rayon = "1"
image = { version = "0.25", default-features = false, features = ["png", "jpeg"] }
candle-core = "*"
candle-nn = "*"
