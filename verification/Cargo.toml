[package]
name = "app_lifecycle"
version = "0.1.0"
edition = "2021"
publish = false

[dependencies]
async-trait = "0.1"
axum = "0.8"
axum-extra = { version = "0.10", features = ["cookie"] }
chrono = "0.4"
include_dir = "0.7"
serde = { version = "1", features = ["derive"] }
serde_json = "1"
thiserror = "1"
validator = "0.20"
