[package]
name = "bedrock_cracker"
version = "0.1.0"
edition = "2021"
publish = false

[dependencies]
async-std = "1"
bytemuck = { version = "1", features = ["extern_crate_alloc"] }
futures = "0.3"
java_random = "*"
next_long_reverser = "*"
pollster = "0.3"
rfd = { version = "0.14", default-features = false, features = ["xdg-portal", "async-std"] }
tokio = { version = "1", features = ["sync"] }
wgpu = { version = "0.19", default-features = false, features = ["wgsl"] }
