[package]
name = "rcore_os"
version = "0.1.0"
edition = "2021"
publish = false

[dependencies]
xmas-elf = "=0.7.0"
bytemuck = { version = "1", features = ["extern_crate_alloc"] }
