[package]
name = "kvs"
version = "0.1.0"
edition = "2021"
publish = false

[dependencies]
bytes = "1"
clap = { version = "4", features = ["derive"] }
env_logger = "0.11"
log = "0.4"
