[package]
name = "bke_ccl"
version = "0.1.0"
edition = "2021"
publish = false

[dependencies]
anyhow = "=1.0.104"
bytemuck = { version = "=1.25.2", features = ["extern_crate_alloc"] }
env_logger = "=0.11.11"
flume = "=0.12.0"
image = { version = "=0.25.10", default-features = false, features = ["png"] }
pollster = "=1.0.1"
wesl = "0.3"
wgpu = "=27.0.1"
