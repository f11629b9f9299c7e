[package]
name = "coursemap"
version = "0.1.0"
edition = "2021"
publish = false

[dependencies]
indexmap = "*"
anyhow = "*"
serde = { version = "*", features = ["derive"] }
serde_yaml = "*"
log = "*"
env_logger = "*"
