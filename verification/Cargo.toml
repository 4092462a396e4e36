[package]
name = "trading_gui"
version = "0.1.0"
edition = "2021"
publish = false

[dependencies]
uuid = { version = "=1.29.0", features = ["v4"] }
serde = { version = "=1.0.229", features = ["derive"] }
serde_json = "=1.0.154"
thiserror = "=1.0.69"
ratatui = "=0.29.0"
log = "=0.4.35"
tokio = { version = "1", default-features = false, features = ["sync"] }
