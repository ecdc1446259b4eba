[package]
name = "dupfinder"
version = "0.1.0"
edition = "2021"
publish = false

[dependencies]
sha2 = "=0.11.0"
rayon = "=1.12.0"
walkdir = "=2.5.0"

[dev-dependencies]
serde_json = "=1.0.151"
