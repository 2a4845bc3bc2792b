[package]
name = "educational_missile_physics"
version = "0.1.0"
edition = "2021"
publish = false

[dependencies]
bevy = { version = "=0.17.3", default-features = false, features = ["bevy_pbr", "bevy_gltf", "bevy_scene", "bevy_core_pipeline", "bevy_anti_alias", "bevy_gizmos", "bevy_text", "bevy_ui", "ktx2"] }
noise = "=0.9.0"
