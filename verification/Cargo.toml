[package]
name = "image_dedup"
version = "0.1.0"
edition = "2021"
publish = false

[dependencies]
image = "*"
image_hasher = "*"
indicatif = "*"
rayon = "*"
serde = { version = "1", features = ["derive"] }
serde_json = "1"
