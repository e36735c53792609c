[package]
name = "destr"
version = "0.1.0"
edition = "2021"
publish = false

[dependencies]
bevy = { version = "=0.18.1", default-features = false, features = ["default_app", "std", "multi_threaded", "bevy_winit", "x11", "bevy_render", "bevy_core_pipeline", "bevy_pbr", "bevy_light", "bevy_camera", "bevy_mesh", "bevy_image", "png", "bevy_picking", "mesh_picking"] }
