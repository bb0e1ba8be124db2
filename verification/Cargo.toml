[package]
name = "incremental_pratt"
version = "0.1.0"
edition = "2021"
publish = false

[dependencies]
rustc-hash = "2"
ropey = "1"
serde = { version = "1", features = ["derive"] }
toml = "0.8"
