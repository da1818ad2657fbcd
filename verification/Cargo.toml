[package]
name = "packs"
version = "0.1.0"
edition = "2021"
publish = false

[dependencies]
itertools = "=0.15.0"
anyhow = "=1.0.104"
rayon = "=1.12.0"
serde = { version = "=1.0.229", features = ["derive"] }
serde_yaml = "=0.9.34"
