[package]
name = "deka_pm"
version = "0.1.0"
edition = "2021"
publish = false

[dependencies]
semver = "=1.0.28"
serde_json = "=1.0.154"
serde = { version = "=1.0.229", features = ["derive"] }
anyhow = "=1.0.104"
reqwest = { version = "0.12", default-features = false, features = ["blocking", "json"] }
