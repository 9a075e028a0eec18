[package]
name = "octocode"
version = "0.1.0"
edition = "2021"
publish = false

[dependencies]
anyhow = "=1.0.104"
clap = { version = "=4.6.7", features = ["derive"] }
ignore = "=0.4.34"
octolib = { version = "=0.49.0", default-features = false, features = ["embeddings"] }
parking_lot = "=0.13.0"
serde = { version = "=1.0.229", features = ["derive"] }
serde_json = "=1.0.154"
tantivy = "=0.27.0"
