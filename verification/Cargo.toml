[package]
name = "pandora_core"
version = "0.1.0"
edition = "2021"
publish = false

[dependencies]
slab = "0.4"
hex = "0.4"
sha1 = "0.10"
base64 = "0.22"
minisign-verify = "0.2"
serde = { version = "1", features = ["derive"] }
serde_json = "1"
