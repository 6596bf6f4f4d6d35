[package]
name = "kvs"
version = "0.1.0"
edition = "2021"
publish = false

[dependencies]
clap = "*"

[dev-dependencies]
serde_json = "*"
