[package]
name = "nn"
version = "0.1.0"
edition = "2021"
publish = false

[dependencies]
wide = "0.7"
gemm = "*"
cubecl = { version = "0.6", features = ["wgpu"] }
wgpu = "25"
pollster = "*"
sysinfo = "*"
nvml-wrapper = "*"
wasm-bindgen = "0.2"
