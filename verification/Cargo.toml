[package]
name = "ignite_ms"
version = "0.1.0"
edition = "2021"
publish = false

[dependencies]
regex = "1"
serde_json = "1"
tokenizers = "0.20"
crossbeam = "0.8"
clap = { version = "4", features = ["derive"] }
indicatif = "0.17"
flate2 = "1"
zstd = "0.13"
arrow = { version = "55", default-features = false }
parquet = { version = "55", default-features = false, features = ["arrow", "zstd"] }
