[package]
name = "traduz"
version = "0.1.0"
edition = "2021"
publish = false

[dependencies]
sha2 = "0.10"
anyhow = "1"
thiserror = "1"
serde = { version = "1", features = ["derive"] }
serde_json = "1"
rusqlite = { version = "0.31", features = ["bundled"] }
walkdir = "2"
clap = { version = "4", features = ["derive"] }
axum = "0.7"
askama = "0.12"
tokio = { version = "1", features = ["full"] }
tower-http = { version = "0.5", features = ["fs"] }
