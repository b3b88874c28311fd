[package]
name = "reattachd"
version = "0.1.0"
edition = "2021"
publish = false

[dependencies]
a2 = "*"
axum = "*"
base64 = "*"
chrono = "*"
dirs = "*"
rand = "*"
serde = { version = "*", features = ["derive"] }
serde_json = "*"
thiserror = "*"
tokio = { version = "*", features = ["rt-multi-thread", "macros", "net"] }
tracing = "*"
tracing-subscriber = { version = "*", features = ["env-filter"] }
uuid = { version = "*", features = ["v4"] }
