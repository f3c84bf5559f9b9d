[package]
name = "hca"
version = "0.1.0"
edition = "2021"
publish = false

[dependencies]
sha2 = "0.10"
base64 = "0.22"
serde = { version = "1", features = ["derive"] }
serde_json = "1"
bincode = "1"
sled = "0.34"
rayon = "1"
anyhow = "1"
reqwest = { version = "0.12", default-features = false, features = ["blocking", "json"] }
