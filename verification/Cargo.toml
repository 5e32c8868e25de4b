[package]
name = "linux_files"
version = "0.1.0"
edition = "2021"
publish = false

[dependencies]
notify = "*"
websocket = { version = "*", default-features = false, features = ["sync"] }
