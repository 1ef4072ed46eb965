[package]
name = "matchmaker"
version = "0.1.0"
edition = "2021"
publish = false

[dependencies]
dashmap = "*"
parking_lot = "*"
serde = { version = "1", features = ["derive"] }
uuid = { version = "1", features = ["v4", "serde"] }
chrono = { version = "0.4", features = ["serde"] }
thiserror = "*"
tokio = { version = "1", features = ["full"] }
axum = "*"
tower-http = { version = "*", features = ["trace"] }
tracing = "*"
tracing-subscriber = { version = "*", features = ["env-filter"] }
