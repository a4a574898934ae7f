[package]
name = "imagevault"
version = "0.1.0"
edition = "2021"
publish = false

[dependencies]
base64 = "*"
rusqlite = { version = "*", features = ["bundled"] }
chrono = "*"
dirs-next = "*"
