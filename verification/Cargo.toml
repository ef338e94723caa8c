[package]
name = "poncu"
version = "0.1.0"
edition = "2021"
publish = false

[dependencies]
bytes = "*"
http-body-util = "*"
hyper = { version = "*", features = ["full"] }
hyper-util = { version = "*", features = ["full"] }
log = "*"
log4rs = "*"
serde_yaml = "*"
tokio = { version = "*", features = ["full"] }
