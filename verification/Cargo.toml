[package]
name = "terrain_codec"
version = "0.1.0"
edition = "2021"
publish = false

[dependencies]
flate2 = "1"
image = { version = "0.25", default-features = false, features = ["png", "webp"] }
serde = { version = "1", features = ["derive"] }
serde_json = "1"
wide = "0.7"
