[package]
name = "libvrs"
version = "0.1.0"
edition = "2021"
publish = false

[dependencies]
nucleo-matcher = "*"
unicode-segmentation = "*"
shellexpand = "*"
serde = { version = "*", features = ["derive"] }
serde_json = "*"
tokio = { version = "*", features = ["full"] }
tokio-util = "*"
bytes = "*"
futures = "*"
tracing = "*"
dirs = "*"
nanoid = "*"
thiserror = "*"
