[package]
name = "game_logic"
version = "0.1.0"
edition = "2021"
publish = false

[dependencies]
serde = { version = "=1.0.229", features = ["derive"] }
rmp-serde = "=0.15.5"
rmp = "=0.8.10"
anyhow = "=1.0.104"
rkyv = "=0.6.7"
bevy = { version = "=0.5.0", default-features = false, features = ["render", "bevy_winit", "bevy_wgpu", "png", "x11"] }
bevy_rapier2d = "=0.11.0"
rapier2d = "=0.11.3"
bevy_egui = { version = "=0.6.2", default-features = false }
bevy_prototype_debug_lines = "=0.3.4"
