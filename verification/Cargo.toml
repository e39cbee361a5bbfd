[package]
name = "fivem_gps"
version = "0.1.0"
edition = "2021"
publish = false

[dependencies]
bevy = { version = "=0.15.3", default-features = false, features = ["bevy_asset", "bevy_render", "bevy_core_pipeline", "bevy_sprite", "bevy_window", "png"] }
pathfinding = "=4.16.0"
quick-xml = { version = "=0.37.5", features = ["serialize"] }
serde = { version = "=1.0.229", features = ["derive"] }
