[package]
name = "rbook"
version = "0.1.0"
edition = "2021"
publish = false

[dependencies]
md5 = "=0.8.1"
base64 = "=0.23.1"
epub = "=2.1.5"
zip = "=8.6.0"
reqwest = { version = "=0.13.5", default-features = false, features = ["blocking", "multipart", "json"] }
serde = { version = "*", features = ["derive"] }
serde_json = "*"
