[package]
name = "astar"
version = "0.1.0"
edition = "2021"
publish = false

[dependencies]
bevy = "0.8"
bevy_flycam = "0.8"
bevy_mod_picking = "0.9"
bevy_transform_gizmo = "0.3"
rand = "0.8"
