[package]
name = "indexer"
version = "0.1.0"
edition = "2021"
publish = false

[dependencies]
axum = "*"
mongodb = "*"
reqwest = { version = "*", features = ["json"] }
serde = { version = "*", features = ["derive"] }
tokio = { version = "*", features = ["full"] }
walkdir = "*"
