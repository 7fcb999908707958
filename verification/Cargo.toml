[package]
name = "bang_search"
version = "0.1.0"
edition = "2021"
publish = false

[dependencies]
urlencoding = "2"
axum = "0.6"
tokio = { version = "1", features = ["macros", "rt-multi-thread", "fs", "io-util"] }
serde = { version = "1", features = ["derive"] }
serde_yaml = "0.9"
tower-http = { version = "0.4", features = ["cors"] }
