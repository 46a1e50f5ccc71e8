[package]
name = "voxxelmaxx"
version = "0.1.0"
edition = "2021"
publish = false

[dependencies]
avian3d = "0.4"
bevy = { version = "=0.17.3", default-features = false, features = ["bevy_pbr", "bevy_window"] }
noisy_bevy = "0.11"
