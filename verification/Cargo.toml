[package]
name = "wfc"
version = "0.1.0"
edition = "2021"
publish = false

[dependencies]
bevy = { version = "=0.7.0", default-features = false, features = ["bevy_render", "bevy_core_pipeline", "bevy_sprite"] }
bevy_common_assets = { version = "=0.2.0", features = ["json"] }
bevy_ecs_tilemap = { version = "=0.6.0" }
darling = { version = "=0.13.4" }
rand = { version = "=0.8.8" }
serde = { version = "=1.0.229", features = ["derive"] }
