[package]
name = "snake"
version = "0.1.0"
edition = "2021"
publish = false

[dependencies]
avian2d = { version = "0.4", default-features = false, features = ["2d", "f32", "parry-f32"] }
bevy = { version = "0.17", default-features = false }
rand = "0.9"
