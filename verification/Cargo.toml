[package]
name = "tcp_over_ws"
version = "0.1.0"
edition = "2021"
publish = false

[dependencies]
rand = "0.8"
tokio = { version = "1", features = ["full"] }
async-tungstenite = { version = "*", features = ["tokio-runtime"] }
futures = "0.3"
either = "1"
tokio-util = "0.7"
serde = { version = "1", features = ["derive"] }
toml = "*"
