[package]
name = "gust"
version = "0.1.0"
edition = "2021"
publish = false

[dependencies]
sha256 = "*"
clap = { version = "*", features = ["derive"] }
serde = { version = "*", features = ["derive"] }
serde_json = "*"
thiserror = "*"
