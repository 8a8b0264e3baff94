[package]
name = "kombox"
version = "0.1.0"
edition = "2021"
publish = false

[dependencies]
bytemuck = { version = "1", features = ["derive"] }
env_logger = "0.11"
glam = "0.25"
log = "0.4"
pollster = "0.3"
