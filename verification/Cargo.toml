[package]
name = "sensor_relay"
version = "0.1.0"
edition = "2021"
publish = false

[dependencies]
axum = { version = "0.6", features = ["ws"] }
dotenvy = "0.15"
futures-util = "0.3"
tokio = { version = "1", features = ["rt-multi-thread", "macros", "time", "signal", "sync"] }
tracing = "0.1"
tracing-subscriber = "0.3"
