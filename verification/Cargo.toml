[package]
name = "lab_builder"
version = "0.1.0"
edition = "2021"
publish = false

[dependencies]
bevy = { version = "0.1", default-features = false }
