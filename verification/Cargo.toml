[package]
name = "bevy_tile_map"
version = "0.1.0"
edition = "2021"
publish = false

[dependencies]
bevy = { version = "=0.7.0", default-features = false, features = ["render"] }
bevy_utils = "=0.7.0"
bevy_mod_raycast = "=0.4.0"
bitflags = "=1.3.2"
bytemuck = { version = "=1.25.2", features = ["derive"] }
async-trait = "=0.1.64"
