[package]
name = "sema"
version = "0.1.0"
edition = "2021"
publish = false

[dependencies]
syn = { version = "2", features = ["full", "visit", "extra-traits"] }
quote = "1"
fnv = "1"
walkdir = "2"
anyhow = "1"
