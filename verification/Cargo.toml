[package]
name = "orderflow"
version = "0.1.0"
edition = "2021"
publish = false

[dependencies]
uuid = { version = "1", features = ["v4"] }
serde = { version = "1", features = ["derive"] }
serde_json = "1"
chrono = "0.4"
rand = "0.9"
log = "0.4"
urlencoding = "2"
futures-util = { version = "0.3", features = ["sink"] }
tokio = { version = "1", features = ["time", "rt", "macros"] }
tokio-tungstenite = "0.26"
