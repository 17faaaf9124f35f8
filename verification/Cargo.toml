[package]
name = "sprite_info"
version = "0.1.0"
edition = "2021"
publish = false

[dependencies]
image = { version = "0.24", default-features = false, features = ["png"] }
neon = { version = "0.10", default-features = false, features = ["napi-6"] }
rayon = "1"
serde = { version = "1", features = ["derive"] }
serde_yaml = "0.9"
walkdir = "2"
