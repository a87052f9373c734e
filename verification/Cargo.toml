[package]
name = "taskini"
version = "0.1.0"
edition = "2021"
publish = false

[dependencies]
uuid = { version = "1", features = ["v4"] }
glob = "0.3"
serde = { version = "1", features = ["derive"] }
serde_json = "1"
tokio = { version = "1", features = ["full"] }
tokio-tungstenite = "*"
futures = "0.3"
futures-channel = "0.3"
futures-util = "0.3"
futures-timer = "3"
crossterm = { version = "*", features = ["event-stream"] }
url = "2"
log = "0.4"
env_logger = "*"
