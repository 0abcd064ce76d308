[package]
name = "pointcloud_engine"
version = "0.1.0"
edition = "2021"
publish = false

[dependencies]
anyhow = "=1.0.104"
bincode = "=1.3.3"
serde = { version = "=1.0.229", features = ["derive"] }
serde_json = "=1.0.154"
shaderc = "0.7"
static_assertions = "1"
wgpu = "0.8"
