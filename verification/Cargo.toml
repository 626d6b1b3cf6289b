[package]
name = "vocab"
version = "0.1.0"
edition = "2021"
publish = false

[dependencies]
protobuf = "2"
serde_json = "1"
