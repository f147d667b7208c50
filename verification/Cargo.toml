[package]
name = "planet"
version = "0.1.0"
edition = "2021"
publish = false

[dependencies]
bevy = { version = "=0.16.1", default-features = false, features = ["std", "bevy_asset", "bevy_color", "bevy_core_pipeline", "bevy_gizmos", "bevy_pbr", "bevy_render", "bevy_window", "bevy_winit", "x11"] }
noise = "=0.9.0"
rand = "=0.9.5"
