[package]
name = "tetris"
version = "0.1.0"
edition = "2021"
publish = false

[dependencies]
rand = "=0.9.5"
bevy = { version = "=0.17.3", default-features = false, features = ["std", "bevy_render", "bevy_core_pipeline", "bevy_sprite", "bevy_sprite_render", "bevy_winit", "bevy_window", "bevy_asset", "bevy_color", "x11"] }
