[package]
name = "channelgate"
version = "0.1.0"
edition = "2021"
publish = false

[dependencies]
axum = { version = "=0.8.9", features = ["ws"] }
chrono = "=0.4.45"
futures = "=0.3.34"
redis = { version = "=1.7.1", features = ["tokio-comp"] }
tokio = { version = "=1.53.2", features = ["full"] }
tokio-stream = "=0.1.19"
tracing = "=0.1.44"
uuid = { version = "=1.27.0", features = ["v4"] }
warp = { version = "=0.4.3", features = ["server", "websocket"] }
