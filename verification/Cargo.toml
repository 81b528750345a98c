[package]
name = "chum_world"
version = "0.2.0"
edition = "2021"
publish = false

[dependencies]
crc = "*"
serde = { version = "*", features = ["derive"] }
serde_json = "*"
clap = "*"
