[package]
name = "encrypt_config"
version = "0.1.0"
edition = "2021"
publish = false

[dependencies]
rsa = { version = "0.9", features = ["serde"] }
rand = "0.8"
keyring = { version = "3", default-features = false }
serde_json = "1"
serde = { version = "1", features = ["derive"] }
dirs = "5"
