[package]
name = "dd-ng"
version = "0.1.0"
edition = "2021"
publish = false

[dependencies]
anyhow = "1"
clap = { version = "4", features = ["derive"] }
crc32c = "0.6"
rand = "0.8"
serde = { version = "1", features = ["derive"] }
serde_json = "1"
