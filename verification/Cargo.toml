[package]
name = "icaros"
version = "0.1.0"
edition = "2021"
publish = false

[dependencies]
anyhow = "*"
chrono = "*"
clap = { version = "*", features = ["derive"] }
crossbeam-channel = "*"
dirs = "*"
git2 = { version = "*", default-features = false }
hex = "*"
serde = { version = "*", features = ["derive"] }
serde_json = "*"
serde_yaml = "*"
sha2 = "*"
walkdir = "*"
