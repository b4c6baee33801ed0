[package]
name = "grf_patcher"
version = "0.1.0"
edition = "2021"
publish = false

[dependencies]
flate2 = "1"
zip = { version = "0.6", default-features = false, features = ["deflate"] }
serde = { version = "1", features = ["derive"] }
serde_json = "1"
serde_yaml = "0.9"
chrono = "0.4"
reqwest = { version = "0.11", default-features = false, features = ["stream"] }
tokio = { version = "1", features = ["rt", "rt-multi-thread", "macros", "time", "fs", "io-util"] }
futures-util = "0.3"
open = "5"
