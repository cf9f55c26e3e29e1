[package]
name = "dolomedes"
version = "0.1.0"
edition = "2021"
publish = false

[dependencies]
anyhow = "1"
binary-heap-plus = "0.5"
clap = { version = "4", features = ["derive"] }
crypto-bigint = "0.5"
deterministic_rand = "*"
ed25519-dalek = { version = "2", features = ["rand_core"] }
futures = "0.3"
hex = "0.4"
quinn = "0.11"
sha2 = "0.10"
tracing = "0.1"
