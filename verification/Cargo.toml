[package]
name = "aether"
version = "0.1.0"
edition = "2021"
publish = false

[dependencies]
url = "=2.5.8"
sha2 = "=0.11.1"
base64 = "=0.23.1"
scraper = "=0.29.0"
serde = { version = "=1.0.229", features = ["derive"] }
serde_json = "=1.0.154"
uuid = { version = "*", features = ["v4", "v5"] }
