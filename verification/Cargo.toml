[package]
name = "table_split"
version = "0.1.0"
edition = "2021"
publish = false

[dependencies]
rocksdb = { version = "*", default-features = false }
