[package]
name = "watchroom"
version = "0.1.0"
edition = "2021"
publish = false

[dependencies]
rocket = "0.5"
rocket_ws = "0.1"
serde = { version = "1", features = ["derive"] }
serde_json = "1"
tokio = { version = "1", features = ["sync", "macros", "rt-multi-thread"] }
uuid = { version = "1", features = ["v4", "serde"] }
