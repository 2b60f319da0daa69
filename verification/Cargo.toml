[package]
name = "dupfinder"
version = "0.1.0"
edition = "2021"
publish = false

[dependencies]
base64 = "=0.22.1"
serde = { version = "1", features = ["derive"] }
sha2 = "=0.10.9"
trash = "=5.2.9"
