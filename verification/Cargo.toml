[package]
name = "poltree"
version = "0.1.0"
edition = "2021"
publish = false

[dependencies]
smol_str = { version = "0.3", features = ["serde"] }
xxhash-rust = { version = "0.8", features = ["xxh3"] }
clap = { version = "4", features = ["derive"] }
miette = "7"
serde = { version = "1", features = ["derive", "rc"] }
serde_json = "1"
