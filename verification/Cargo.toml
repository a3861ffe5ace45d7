[package]
name = "sv39_kernel"
version = "0.1.0"
edition = "2021"
publish = false

[dependencies]
xmas-elf = "*"
riscv = "*"
spin = "*"
lazy_static = { version = "*", features = ["spin_no_std"] }
buddy_system_allocator = "*"
embedded-time = "*"
