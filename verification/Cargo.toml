[package]
name = "ship_alive"
version = "0.1.0"
edition = "2021"
publish = false

[dependencies]
image = { version = "0.25", default-features = false, features = ["png"] }
bevy = { version = "0.16", default-features = false }
