[package]
name = "latte"
version = "0.1.0"
edition = "2021"
publish = false

[dependencies]
metrohash = "=1.0.7"
rand = { version = "=0.8.8", features = ["small_rng"] }
chrono = "=0.4.45"
statrs = "=0.17.1"
try-lock = "=0.2.5"
aws-sdk-dynamodb = { version = "=1.130.0", default-features = false }
aws-config = { version = "=1.12.0", default-features = false }
