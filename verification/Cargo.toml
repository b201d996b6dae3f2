[package]
name = "cs260"
version = "0.1.0"
edition = "2021"
publish = false

[dependencies]
natord = "1"
serde = { version = "1", features = ["derive"] }
serde_json = "1"
