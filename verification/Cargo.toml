[package]
name = "manga_rs"
version = "0.1.0"
edition = "2021"
publish = false

[dependencies]
lru-cache = "*"
chrono = "*"
serde = { version = "*", features = ["derive"] }
serde_json = "*"
flate2 = "*"
