[package]
name = "ruknet"
version = "0.1.2"
edition = "2021"
publish = false

[dependencies]
bytes = "1"
tokio = { version = "1", features = ["rt-multi-thread", "net", "time", "sync", "macros"] }
crossbeam-queue = "0.3"
dashmap = "6"
rand = "0.9"
