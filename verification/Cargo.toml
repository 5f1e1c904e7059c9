[package]
name = "phobos"
version = "0.1.0"
edition = "2021"
publish = false

[dependencies]
anyhow = "1"
ash = "0.37"
gpu-allocator = { version = "0.22", default-features = false, features = ["vulkan"] }
