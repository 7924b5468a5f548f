[package]
name = "minecraft_protocol"
version = "0.1.0"
edition = "2021"
publish = false

[dependencies]
flate2 = "=1.1.10"
openssl = "=0.10.82"
thiserror = "=1.0.69"
tokio = { version = "=1.54.1", features = ["io-util", "net"] }
uuid = "1"
