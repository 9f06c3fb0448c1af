[package]
name = "subsecond"
version = "0.1.0"
edition = "2021"
publish = false

[dependencies]
anyhow = "1"
itertools = "0.14"
libloading = "0.8"
object = { version = "0.36", features = ["write"] }
target-lexicon = "0.13"
