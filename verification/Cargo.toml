[package]
name = "async_ecs"
version = "0.1.0"
edition = "2021"
publish = false

[dependencies]
tokio = { version = "1", features = ["sync", "rt"] }
futures = "0.3"
crossbeam-queue = "0.3"
hashbrown = "*"
asparit = "*"
