[package]
name = "generative_chunks"
version = "0.1.0"
edition = "2021"
publish = false

[dependencies]
daggy = "=0.9.0"

[dev-dependencies]
rand = { version = "=0.8.5", features = ["small_rng"] }
