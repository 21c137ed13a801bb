[package]
name = "qvis"
version = "0.1.0"
edition = "2021"
publish = false

[dependencies]
serde = { version = "*", features = ["derive"] }
serde_json = "*"

[dev-dependencies]
rand = { version = "*", features = ["small_rng"] }
