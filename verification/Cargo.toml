[package]
name = "banto_kernel"
version = "0.1.0"
edition = "2021"
publish = false

[dependencies]
serde_json = "=1.0.154"
sha2 = "=0.10.9"
hex = "=0.4.3"
chrono = "=0.4.45"
toml = "=0.8.23"
clap = { version = "=4.6.7", features = ["derive"] }
