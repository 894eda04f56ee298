[package]
name = "entity_hierarchy"
version = "0.1.0"
edition = "2021"
publish = false

[dependencies]
bevy_color = "*"
bevy_ecs = "*"
nu-ansi-term = "*"
