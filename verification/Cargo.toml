[package]
name = "dynamo_custom_policy_builtin"
version = "0.1.0"
edition = "2021"
publish = false

[dependencies]
dynamo-kv-router = "*"
fastrand = "2"
parking_lot = "0.12"
serde = { version = "1", features = ["derive"] }
