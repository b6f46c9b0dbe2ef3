[package]
name = "redline"
version = "0.1.0"
edition = "2021"
publish = false

[dependencies]
rand = "0.8"
pyrrhic-rs = "*"
crossbeam = "0.8"
axum = "0.7"
tokio = { version = "1", features = ["full"] }
tower-http = { version = "0.5", features = ["cors"] }
serde = { version = "1", features = ["derive"] }
lazy_static = "1"
