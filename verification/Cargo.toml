[package]
name = "temp_file_host"
version = "0.1.0"
edition = "2021"
publish = false

[dependencies]
sha2 = "*"
sha1 = "*"
hmac = "*"
urlencoding = "*"
url = "*"
tokio = { version = "*", features = ["full"] }
axum = { version = "*", features = ["multipart"] }
reqwest = { version = "*", default-features = false }
serde = { version = "*", features = ["derive"] }
serde_json = "*"
toml = "*"
futures-util = "*"
tokio-util = { version = "*", features = ["io"] }
