[package]
name = "tinyamodb"
version = "0.1.0"
edition = "2021"
publish = false

[dependencies]
rocksdb = { version = "*", default-features = false }

[dev-dependencies]
tempdir = "*"
