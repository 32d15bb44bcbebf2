[package]
name = "bookmark_shelf"
version = "0.1.0"
edition = "2021"
publish = false

[dependencies]
anyhow = "1"
chrono = "0.4"
dirs = "*"
futures = "0.3"
reqwest = { version = "0.12", default-features = false, features = ["rustls-tls"] }
scraper = "*"
serde = { version = "1", features = ["derive"] }
serde_json = "1"
toml = "*"
