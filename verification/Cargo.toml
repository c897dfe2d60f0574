[package]
name = "cex_engine"
version = "0.1.0"
edition = "2021"
publish = false

[dependencies]
actix-web = "4"
tokio = { version = "1", features = ["full"] }
redis = { version = "0.25", features = ["tokio-comp", "aio"] }
serde = { version = "1", features = ["derive"] }
serde_json = "1"
jsonwebtoken = "9"
chrono = "0.4"
uuid = { version = "1", features = ["v4"] }
