[package]
name = "presence_service"
version = "0.1.0"
edition = "2021"
publish = false

[dependencies]
anyhow = "1"
bytes = "1"
dotenvy = "*"
futures-util = "0.3"
rand = "0.8"
redis = { version = "*", features = ["tokio-comp", "connection-manager"] }
tokio = { version = "1", features = ["full"] }
tokio-tungstenite = "*"
tracing = "0.1"
tracing-subscriber = { version = "0.3", features = ["env-filter"] }
uuid = { version = "1", features = ["v4"] }
validator = "*"
