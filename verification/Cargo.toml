[package]
name = "datalake"
version = "0.1.0"
edition = "2021"
publish = false

[dependencies]
sha2 = "*"
blake3 = "*"
libdeflater = "*"
bitcode = { version = "*", features = ["serde"] }
serde = "*"
memmap = "*"
