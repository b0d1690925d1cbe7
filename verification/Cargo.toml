[package]
name = "mdi"
version = "0.1.0"
edition = "2021"
publish = false

[dependencies]
crossbeam = "*"
tokio = { version = "*", features = ["sync", "rt-multi-thread", "macros", "time"] }
num_cpus = "*"
serde = { version = "*", features = ["derive"] }
serde_json = "*"
libc = "*"
parking_lot = "*"
rocksdb = "*"
futures = "*"
tokio-tungstenite = "*"
tracing = "*"
tracing-subscriber = "*"
