[package]
name = "wire_vault"
version = "0.1.0"
edition = "2021"
publish = false

[dependencies]
base64 = "*"
hex = "*"
serde = { version = "*", features = ["derive"] }
serde_json = "*"
