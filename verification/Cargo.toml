[package]
name = "feather"
version = "0.1.0"
edition = "2021"
publish = false

[dependencies]
serde_json = "*"
chrono = "*"
base64 = "*"
tokio = { version = "*", features = ["rt-multi-thread", "macros", "sync", "time"] }
notify = "*"
notify-debouncer-mini = "*"
