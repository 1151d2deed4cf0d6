[package]
name = "sparse_rulers"
version = "0.1.0"
edition = "2021"
publish = false

[dependencies]
bytemuck = { version = "1", features = ["derive"] }
clap = { version = "4", features = ["derive"] }
cpu-time = "1"
ctrlc = "3"
indicatif = "0.17"
pollster = "0.4"
rayon = "1"
serde = { version = "1", features = ["derive"] }
serde_json = "1"
wgpu = "24"
