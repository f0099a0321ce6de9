[package]
name = "sand_tetris"
version = "0.1.0"
edition = "2021"
publish = false

[dependencies]
rand = "=0.10.3"
bevy = { version = "=0.17.3", default-features = false, features = ["bevy_core_pipeline", "bevy_render", "bevy_sprite", "bevy_sprite_render", "bevy_ui", "bevy_ui_render", "bevy_text", "bevy_window", "default_font", "bevy_log", "std"] }
