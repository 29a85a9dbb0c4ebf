[package]
name = "mudup"
version = "0.1.0"
edition = "2021"
publish = false

[dependencies]
anyhow = "1"
clap = { version = "4", features = ["derive"] }
indicatif = "0.17"
reqwest = { version = "0.12", default-features = false, features = ["rustls-tls"] }
scraper = "0.20"
sha2 = "0.10"
tokio = { version = "1", features = ["macros", "rt", "fs", "io-util"] }
