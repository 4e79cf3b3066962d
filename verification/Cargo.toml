[package]
name = "kpir_index"
version = "0.1.0"
edition = "2021"
publish = false

[dependencies]
rand = "0.8"
rand_chacha = "0.3"
xxhash-rust = { version = "0.8", features = ["xxh3"] }
