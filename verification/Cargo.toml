[package]
name = "reconnect"
version = "0.1.0"
edition = "2021"
publish = false

[dependencies]
anyhow = "*"
clap = { version = "*", features = ["derive"] }
csv = "*"
murmur3 = "*"
serde = "*"
serde_derive = "*"
