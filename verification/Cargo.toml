[package]
name = "rummikub"
version = "0.1.0"
edition = "2021"
publish = false

[dependencies]
uuid = { version = "*", features = ["v4"] }
bevy = { version = "*", default-features = false }
bevy_ecs = "*"
bevy_prng = { version = "*", features = ["wyrand"] }
bevy_rand = { version = "*", features = ["wyrand"] }
