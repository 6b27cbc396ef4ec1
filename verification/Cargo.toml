[package]
name = "kiro_gateway"
version = "0.1.0"
edition = "2021"
publish = false

[dependencies]
sha2 = "*"
hex = "*"
fastrand = "*"
serde = { version = "*", features = ["derive"] }
serde_json = "*"
parking_lot = "*"
chrono = "*"
tokio = { version = "*", features = ["fs", "rt"] }
tracing = "*"
axum = "*"
