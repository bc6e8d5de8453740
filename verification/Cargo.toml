[package]
name = "kcp_tokio"
version = "0.3.7"
edition = "2021"
publish = false

[dependencies]
bytes = "1"
crossbeam-queue = "0.3"
rand = "0.8"
tokio = { version = "1", features = ["full"] }
dashmap = "6"
tracing = "0.1"
thiserror = "1"
