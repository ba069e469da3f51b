[package]
name = "rustysozluk"
version = "0.1.0"
edition = "2021"

[dependencies]
csv = "1"
reqwest = "*"
scraper = "*"
serde = { version = "1", features = ["derive"] }
serde_json = "1"
thiserror = "*"
tokio = { version = "1", features = ["macros", "rt-multi-thread"] }
