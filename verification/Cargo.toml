[package]
name = "velyx"
version = "0.1.0"
edition = "2021"
publish = false

[dependencies]
anyhow = "1"
ed25519-dalek = { version = "2", features = ["rand_core"] }
hex = "0.4"
rand_core = { version = "0.6", features = ["getrandom"] }
raptorq = "2"
sha2 = "0.10"
snow = "0.9"
tokio = { version = "1", features = ["net", "rt-multi-thread", "macros"] }
