[package]
name = "axolotl_core"
version = "0.1.0"
edition = "2021"
publish = false

[dependencies]
url = "2"
sha2 = "0.10"
tokio-util = "0.7"
tokio = { version = "1", features = ["fs", "sync", "rt", "rt-multi-thread", "macros", "time", "io-util"] }
sqlx = { version = "0.8", default-features = false, features = ["sqlite", "runtime-tokio"] }
serde = { version = "1", features = ["derive"] }
chrono = "0.4"
uuid = { version = "1", features = ["v4"] }
dashmap = "6"
tracing = "0.1"
futures = "0.3"
