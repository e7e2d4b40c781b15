[package]
name = "elections"
version = "0.1.0"
edition = "2021"
publish = false

[dependencies]
clap = { version = "4", features = ["derive"] }
csv = "1"
itertools = "0.10"
serde = { version = "1", features = ["derive"] }
serde_json = "1"
