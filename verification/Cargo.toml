[package]
name = "udp_game_server"
version = "0.1.0"
edition = "2021"
publish = false

[dependencies]
anyhow = "1"
glam = "*"
uuid = { version = "1", features = ["serde"] }

[dev-dependencies]
bincode = "1.3"
