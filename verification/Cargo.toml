[package]
name = "requestr"
version = "0.1.0"
edition = "2021"
publish = false

[dependencies]
serde = { version = "1", features = ["derive"] }
serde_json = "1"
serde_yaml = "*"
reqwest = { version = "*", default-features = false, features = ["blocking"] }
