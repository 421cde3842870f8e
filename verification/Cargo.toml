[package]
name = "rcore"
version = "0.1.0"
edition = "2021"
publish = false

[dependencies]
clap = "2"
log = "0.4"
lazy_static = "1"
spin = "0.9"
bitflags = "1"
riscv = "*"
sbi-rt = "*"
virtio-drivers = "*"
buddy_system_allocator = "*"

[dev-dependencies]
rand = "0.8"
