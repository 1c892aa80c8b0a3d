[package]
name = "gentleman_manager"
version = "0.1.0"
edition = "2021"
publish = false

[dependencies]
anyhow = "1"
regex = "1"
scraper = "0.20"
serde = { version = "1", features = ["derive"] }
serde_json = "1"
zip = { version = "2", default-features = false, features = ["deflate"] }
reqwest = { version = "0.12", default-features = false, features = ["json", "rustls-tls"] }
tokio = { version = "1", features = ["rt", "rt-multi-thread", "net", "time", "macros", "fs", "io-util", "sync"] }
mdns-sd = "0.11"
uuid = { version = "1", features = ["v4"] }
