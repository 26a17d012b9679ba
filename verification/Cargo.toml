[package]
name = "spma"
version = "0.2.0"
edition = "2021"
publish = false

[dependencies]
anyhow = "1"
clap = { version = "4", features = ["derive"] }
mimalloc = "0.1"
rayon = "1"
serde = { version = "1", features = ["derive"] }
serde_json = "1"
