[package]
name = "audin"
version = "0.1.0"
edition = "2021"
publish = false

[dependencies]
anyhow = "1"
dirs = "6"
env_logger = "0.11"
indicatif = "0.18"
log = "0.4"
ort = { version = "=2.0.0-rc.12", default-features = false, features = ["std", "load-dynamic", "api-24"] }
reqwest = { version = "0.12", features = ["blocking"] }
