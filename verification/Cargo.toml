[package]
name = "remote_worker"
version = "0.1.0"
edition = "2021"
publish = false

[dependencies]
tar = { version = "0.4", default-features = false }
