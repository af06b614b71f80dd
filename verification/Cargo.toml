[package]
name = "honey_badger"
version = "0.1.0"
edition = "2021"
publish = false

[dependencies]
bincode = "1"
rand = "0.4"
serde = { version = "1", features = ["derive"] }
