[package]
name = "litearrow"
version = "0.1.0"
edition = "2021"
publish = false

[dependencies]
arrow-array = "*"
arrow-buffer = "*"
arrow-data = "*"
arrow-ipc = "*"
arrow-schema = "*"
arrow-select = "*"
bytes = "*"
parquet = { version = "*", default-features = false, features = ["arrow", "zstd"] }
rayon = "*"
