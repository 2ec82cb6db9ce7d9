[package]
name = "dram"
version = "0.1.0"
edition = "2021"
publish = false

[dependencies]
anyhow = "1"
clap = { version = "4", features = ["derive"] }
flate2 = "1"
futures = "0.3"
glob = "0.3"
hex = "0.4"
indicatif = "*"
libc = "0.2"
regex = "1"
reqwest = { version = "0.12", default-features = false, features = ["rustls-tls", "stream"] }
serde = { version = "1", features = ["derive"] }
serde_json = "1"
sha2 = "*"
tar = "0.4"
tokio = { version = "1", features = ["full"] }
toml = "*"
walkdir = "2"
