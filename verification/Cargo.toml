[package]
name = "netchannel"
version = "0.1.0"
edition = "2021"
publish = false

[dependencies]
anyhow = "*"
bevy_ecs = "*"
bytes = "*"
enum_delegate = "*"
serde = "*"
tracing = "*"
