[package]
name = "stpl"
version = "0.1.0"
edition = "2021"
publish = false

[dependencies]
anstream = "*"
anstyle = "*"
anyhow = "*"
chrono = "0.4"
clap = { version = "4", features = ["derive"] }
dirs = "*"
fuzzy-matcher = "*"
serde = { version = "1", features = ["derive"] }
serde_json = "1"
thiserror = "*"
toml = "*"
walkdir = "*"
