[package]
name = "narwhal"
version = "0.1.0"
edition = "2021"
publish = false

[dependencies]
serde = { version = "1", features = ["derive"] }
serde_json = "1"
url = "*"
form_urlencoded = "*"
openssl = "0.10"
