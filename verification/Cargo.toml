[package]
name = "cloud_sync"
version = "0.1.0"
edition = "2021"
publish = false

[dependencies]
blake3 = "*"
byte-unit = "*"
serde = { version = "*", features = ["derive"] }
serde_json = "*"
walkdir = "*"
anyhow = "*"
argon2 = "*"
jsonwebtoken = "*"
