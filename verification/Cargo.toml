[package]
name = "hairball"
version = "0.2.0"
edition = "2021"
publish = false

[dependencies]
uuid = { version = "1", features = ["v4"] }
