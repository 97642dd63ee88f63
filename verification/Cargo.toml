[package]
name = "moonshell"
version = "0.1.0"
edition = "2021"
publish = false

[dependencies]
serde = { version = "=1.0.229", features = ["derive"] }
serde_yaml = "=0.9.34"
bytemuck = { version = "=1.25.2", features = ["derive"] }
bevy = { version = "=0.19.1", default-features = false, features = ["std", "multi_threaded", "async_executor", "bevy_asset", "bevy_log", "bevy_window", "bevy_winit", "x11", "bevy_render", "bevy_core_pipeline", "bevy_sprite", "bevy_sprite_render", "bevy_camera", "bevy_color", "bevy_image", "bevy_mesh", "bevy_shader", "bevy_input_focus"] }
