[package]
name = "chatstats"
version = "0.1.0"
edition = "2021"
publish = false

[dependencies]
rand = "*"
serde_json = "*"
serde = { version = "*", features = ["derive"] }
