[package]
name = "arity"
version = "0.1.0"
edition = "2021"
publish = false

[dependencies]
serde = { version = "1", features = ["derive"] }
serde_with = "3"
hybrid-array = "0.4"
anyhow = "1"

[dev-dependencies]
serde_json = "1"
