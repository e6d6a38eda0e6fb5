[package]
name = "todorust"
version = "0.1.0"
edition = "2021"
publish = false

[dependencies]
anyhow = "1"
chrono = "0.4"
colored = "*"
dialoguer = "*"
uuid = { version = "1", features = ["v4"] }
