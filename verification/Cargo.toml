[package]
name = "xerus"
version = "0.2.0"
edition = "2021"
publish = false

[dependencies]
anyhow = "1"
boring = "4"
byteorder = "1"
clap = { version = "4", features = ["derive"] }
crossbeam-channel = "0.5"
hex = "0.4"
indicatif = "0.17"
log = "0.4"
pretty_env_logger = "0.5"
rand = "0.9"
reqwest = { version = "0.12", features = ["blocking"] }
serde = { version = "1", features = ["derive"] }
serde_bencode = "0.2"
serde_bytes = "0.11"
url = "2"
