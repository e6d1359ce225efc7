[package]
name = "hashcash"
version = "0.1.0"
edition = "2021"
publish = false

[dependencies]
base64 = "0.22"
reqwest = { version = "0.12", default-features = false }

[dev-dependencies]
sha2 = "0.10"
