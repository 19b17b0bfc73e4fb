[package]
name = "bts"
version = "0.1.0"
edition = "2021"
publish = false

[dependencies]
clap = { version = "3", features = ["derive"] }
crossterm = "0.27"
env_logger = "0.10"
futures-channel = "0.3"
futures-util = "0.3"
glob = "0.3"
log = "0.4"
rand = "0.8"
ratatui = "0.26"
serde = { version = "1", features = ["derive"] }
serde_json = "1"
tokio = { version = "1", features = ["full"] }
tokio-tungstenite = "0.20"
tungstenite = "0.20"
uuid = { version = "1", features = ["v4"] }
