[package]
name = "foot_cycle_clip"
version = "0.1.0"
edition = "2021"
publish = false

[dependencies]
glam = "*"
thiserror = "*"
