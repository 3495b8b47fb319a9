[package]
name = "elio"
version = "0.1.0"
edition = "2021"
publish = false

[dependencies]
anyhow = "1"
blake3 = { version = "1", default-features = false, features = ["std", "pure"] }
crossterm = "*"
dirs = "*"
libc = "0.2"
serde_json = "1"
