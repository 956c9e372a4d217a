[package]
name = "radicle_cobs"
version = "0.1.0"
edition = "2021"
publish = false

[dependencies]
fastrand = "1"
lexopt = "*"
anyhow = "*"
serde = { version = "1", features = ["derive"] }
serde_json = "1"
serde_yaml = "*"
thiserror = "1"
