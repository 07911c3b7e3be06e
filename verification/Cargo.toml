[package]
name = "bs64"
version = "0.1.0"
edition = "2021"
publish = false

[dependencies]
data-encoding = "=2.11.1"
base64 = "=0.22.1"

[dev-dependencies]
rand = { version = "=0.8.8", features = ["small_rng"] }
