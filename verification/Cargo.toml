[package]
name = "os4"
version = "0.1.0"
edition = "2021"
publish = false

[dependencies]
bytemuck = "*"
xmas-elf = "=0.10.0"
