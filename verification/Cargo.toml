[package]
name = "boot_frame_alloc"
version = "0.1.0"
edition = "2021"
publish = false

[dependencies]
x86_64 = "=0.14.13"
