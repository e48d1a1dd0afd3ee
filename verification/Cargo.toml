[package]
name = "hexlog"
version = "0.1.0"
edition = "2021"
publish = false

[dependencies]
rand = "0.9"
ron = "0.10"
serde = { version = "1", features = ["derive"] }
thiserror = "2"
bevy = { version = "0.17", default-features = false, features = ["std", "bevy_asset", "bevy_state", "bevy_log"] }
