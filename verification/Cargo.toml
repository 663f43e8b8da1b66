[package]
name = "quadtree"
version = "0.1.0"
edition = "2021"
publish = false

[dependencies]
bevy = { version = "0.15", default-features = false, features = ["bevy_color", "bevy_core_pipeline", "bevy_dev_tools", "bevy_gizmos", "bevy_render", "bevy_text", "bevy_window"] }
rand = "0.9"
