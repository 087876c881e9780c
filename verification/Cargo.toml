[package]
name = "rocketmq_store"
version = "0.1.0"
edition = "2021"
publish = false

[dependencies]
dirs = "5"
lazy_static = "1.4"
serde = { version = "1", features = ["derive"] }
