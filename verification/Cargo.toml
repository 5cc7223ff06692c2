[package]
name = "hypervariate_core"
version = "0.1.0"
edition = "2021"
publish = false

[dependencies]
eyre = "0.6"
serde = { version = "1", features = ["derive"] }

[dev-dependencies]
rand = "0.8"
