[package]
name = "legal_service_router"
version = "0.1.0"
edition = "2021"
publish = false

[dependencies]
axum = "0.7"
chrono = { version = "0.4", features = ["serde"] }
r2d2 = "0.8"
rusqlite = { version = "0.31", features = ["bundled"] }
serde = { version = "1", features = ["derive"] }
serde_json = "1"
thiserror = "1"
tokio = { version = "1", features = ["full"] }
uuid = { version = "1", features = ["v4"] }
