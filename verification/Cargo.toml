[package]
name = "algos"
version = "0.1.0"
edition = "2021"
publish = false

[dependencies]
ciborium = "0.2"
serde = "1"

[dev-dependencies]
rand = "0.8"
