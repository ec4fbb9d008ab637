[package]
name = "wasm_storage"
version = "0.1.0"
edition = "2021"
publish = false

[dependencies]
chrono = "0.4"
rocksdb = { version = "0.22", default-features = false }
tokio = { version = "1", features = ["full"] }
tonic = "0.12"
prost = "0.13"
futures = "0.3"
log = "0.4"
env_logger = "0.11"
