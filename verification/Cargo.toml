[package]
name = "squishy_volumes_gpu"
version = "0.1.0"
edition = "2021"
publish = false

[dependencies]
num = "=0.4.3"
wgpu = "=30.0.1"
bytemuck = { version = "=1.25.2", features = ["derive"] }
thiserror = "=2.0.21"
pollster = "=1.0.1"
rand = { version = "=0.10.3", features = ["chacha"] }
