[package]
name = "eventfiles"
version = "0.1.0"
edition = "2021"
publish = false

[dependencies]
anyhow = "*"
chrono = "*"
chrono-tz = "*"
encoding_rs = "*"
lazy-regex = "*"
serde = { version = "*", features = ["derive"] }
serde_json = "*"
ureq = "*"
url = "*"
