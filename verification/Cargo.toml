[package]
name = "arima"
version = "0.1.0"
edition = "2021"
publish = false

[dependencies]
raft = "=0.6.0"
protobuf = { version = "=2.28.0", features = ["with-bytes"] }
rocksdb = "=0.25.0"
crossbeam-channel = "=0.5.17"
slog = "=2.8.2"
slog-stdlog = "=4.1.1"
