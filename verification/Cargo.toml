[package]
name = "f3note"
version = "1.0.0"
edition = "2021"
publish = false

[dependencies]
blake3 = "1"
chardetng = "0.1"
encoding_rs = "0.8"
zstd = "0.13"
serde = { version = "1", features = ["derive"] }
serde_json = "1"
toml = "0.8"
