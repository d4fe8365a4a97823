[package]
name = "rcryptoport"
version = "3.0.0"
edition = "2021"
publish = false

[dependencies]
chrono = "*"
clap = "*"
colored = "*"
dirs = "*"
serde = { version = "*", features = ["derive"] }
serde_json = "*"
ureq = "*"
