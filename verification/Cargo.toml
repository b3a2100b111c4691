[package]
name = "outbound"
version = "0.1.0"
edition = "2021"
publish = false

[dependencies]
itertools = "*"
tokio = { version = "1", features = ["rt", "rt-multi-thread", "sync", "time", "macros"] }
futures = "0.3"
log = "0.4"
