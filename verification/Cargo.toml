[package]
name = "algors"
version = "0.1.0"
edition = "2021"
publish = false

[dependencies]
xxhash-rust = { version = "=0.8.19", features = ["xxh3"] }

[dev-dependencies]
rand = "0.8"
