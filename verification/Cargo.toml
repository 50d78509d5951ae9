[package]
name = "emergency_dispatch"
version = "0.1.0"
edition = "2021"
publish = false

[dependencies]
chrono = "*"
encoding_rs = "*"
reqwest = { version = "*", default-features = false, features = ["blocking"] }
scraper = "*"
serde_json = "*"
