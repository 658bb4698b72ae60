[package]
name = "atlas"
version = "0.1.0"
edition = "2021"
publish = false

[dependencies]
num-bigint = "0.4"
num-integer = "0.1"
num-traits = "0.2"
sha2 = "0.10"
wgpu = "24"
pollster = "0.4"
bytemuck = "1"
