[package]
name = "tbon"
version = "0.8.0"
edition = "2021"
publish = false

[dependencies]
bytes = "=1.12.1"
destream = "0.10"
futures = "0.3"
tokio = { version = "1", default-features = false, features = ["io-util"] }
