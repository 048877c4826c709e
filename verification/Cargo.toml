[package]
name = "maas_backend"
version = "0.1.0"
edition = "2021"
publish = false

[dependencies]
axum = "*"
config = "*"
dotenv = "*"
lazy_static = "*"
prometheus = "*"
serde = { version = "*", features = ["derive"] }
tokio = { version = "*", features = ["macros", "rt-multi-thread", "net"] }
tracing = "*"
tracing-subscriber = "*"
uuid = { version = "*", features = ["v4", "serde"] }
