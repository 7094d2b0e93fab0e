[package]
name = "adaptive_balancer"
version = "0.1.0"
edition = "2021"
publish = false

[dependencies]
md5 = "0.7"
rand = "0.8"
uuid = { version = "1", features = ["v4"] }
tokio = { version = "1", features = ["full"] }
hyper = { version = "0.14", features = ["full"] }
hyper-tls = "0.5"
axum = { version = "0.6", features = ["ws"] }
tower-http = { version = "0.4", features = ["cors"] }
bollard = "0.16"
redis = "0.25"
serde = { version = "1", features = ["derive"] }
serde_json = "1"
tokio-tungstenite = "0.21"
futures = "0.3"
futures-util = "0.3"
dotenv = "0.15"
log = "0.4"
env_logger = "0.11"
