[package]
name = "dial9-trace-format"
version = "0.1.0"
edition = "2021"
publish = false

[dependencies]
crossbeam-queue = "0.3"
blazesym = "*"
serde = { version = "1", features = ["derive"] }
tokio = { version = "1", features = ["rt"] }
