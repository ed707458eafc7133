[package]
name = "galaxy_sim"
version = "0.1.0"
edition = "2021"
publish = false

[dependencies]
bevy = { version = "=0.18.1", default-features = false, features = ["bevy_state", "bevy_log", "multi_threaded"] }
glam = "0.30"
rand = "=0.10.3"
serde = { version = "=1.0.229", features = ["derive"] }
serde_json = "=1.0.154"
mimalloc = "=0.1.52"
