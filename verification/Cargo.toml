[package]
name = "gpp-core"
version = "0.1.0"
edition = "2021"
publish = false

[dependencies]
rand = "0.8"
base64 = "0.22"
blake3 = "1"
serde = { version = "1", features = ["derive"] }
serde_json = "1"
