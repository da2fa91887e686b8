[package]
name = "snaphound"
version = "0.1.0"
edition = "2021"
publish = false

[dependencies]
image = "*"
webp = "*"
uuid = { version = "*", features = ["v4"] }
dirs = "*"
walkdir = "*"
serde_json = "*"
