[package]
name = "patchgpt"
version = "0.1.0"
edition = "2021"
publish = false

[dependencies]
bytemuck = "1"
gpt_disk_types = { version = "*", features = ["bytemuck"] }
