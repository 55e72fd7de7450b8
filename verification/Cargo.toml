[package]
name = "verbas"
version = "0.1.0"
edition = "2021"
publish = false

[dependencies]
chrono = "*"
zip = "*"

[dev-dependencies]
serde_json = "*"
