[package]
name = "abiogenesis"
version = "0.1.0"
edition = "2021"
publish = false

[dependencies]
bevy = { version = "0.16", default-features = false, features = ["std", "bevy_sprite", "bevy_log", "bevy_color"] }
rand = "0.9"
tracing = "0.1"
