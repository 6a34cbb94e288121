[package]
name = "lenia_ca"
version = "0.1.0"
edition = "2021"
publish = false

[dependencies]
bytemuck = { version = "1", features = ["extern_crate_alloc"] }
ndarray = "0.15"
num-complex = "0.4"
pollster = "0.3"
rand = "0.8"
rustfft = "6"
wgpu = "0.17"
winit = { version = "0.28", default-features = false, features = ["x11"] }
