[package]
name = "voxel_octree"
version = "0.1.0"
edition = "2021"
publish = false

[dependencies]
ash = "0.37"
ash-window = "0.12"
raw-window-handle = "0.5"
winit = "0.28"
nalgebra-glm = "0.18"
cgmath = "0.18"
log = "0.4"
env_logger = "0.10"
chrono = "0.4"
noise = "0.8"
rand = "0.8"
image = { version = "0.24", default-features = false }
