[package]
name = "atris"
version = "0.1.0"
edition = "2021"
publish = false

[dependencies]
rand = "0.8"
crossbeam = "0.8"
futures = { version = "0.3", features = ["executor", "thread-pool"] }
uuid = { version = "1", features = ["v4"] }
