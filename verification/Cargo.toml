[package]
name = "ranged_read"
version = "0.1.0"
edition = "2021"
publish = false

[dependencies]
object_store = { version = "*", features = ["aws"] }
tokio = { version = "*", features = ["rt-multi-thread", "macros"] }
futures = "*"
aws-creds = "*"
tracing-subscriber = "*"
