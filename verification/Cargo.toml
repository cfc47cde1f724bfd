[package]
name = "firn"
version = "0.1.0"
edition = "2021"
publish = false

[dependencies]
utf-8 = "*"
unicode-segmentation = "*"
serde = { version = "*", features = ["derive"] }
serde_json = "*"
anyhow = "*"
log = "*"
env_logger = "*"
pty-process = "*"
