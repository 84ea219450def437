[package]
name = "gqodb"
version = "0.1.0"
edition = "2021"
publish = false

[dependencies]
crc32fast = "=1.5.4"
lz4_flex = "=0.14.0"
bitpacking = "=0.9.3"
sha2 = "=0.11.1"
anyhow = "=1.0.104"
bytes = "=1.12.1"
serde = { version = "=1.0.229", features = ["derive"] }
serde_json = "=1.0.154"
flate2 = "=1.1.10"
arrow-array = "=60.1.0"
arrow-schema = { version = "=60.1.0", features = ["serde"] }
arrow-select = "=60.1.0"
parquet = { version = "=60.1.0", default-features = false, features = ["arrow", "lz4", "snap", "brotli"] }
