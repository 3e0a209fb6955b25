[package]
name = "hypr_socket_watch"
version = "0.1.0"
edition = "2021"
publish = false

[dependencies]
tokio = { version = "*", features = ["net", "io-util", "rt-multi-thread", "macros", "process"] }
serde = { version = "*", features = ["derive"] }
serde_yaml = "*"
directories = "*"
env_logger = "*"
log = "*"
