[package]
name = "parquet_ops"
version = "0.1.0"
edition = "2021"
publish = false

[dependencies]
parquet = { version = "*", default-features = false, features = ["snap"] }

[dev-dependencies]
bytes = "*"
