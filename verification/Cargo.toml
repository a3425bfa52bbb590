[package]
name = "rvkern"
version = "0.1.0"
edition = "2021"
publish = false

[dependencies]
xmas-elf = "*"
zero = "*"
spin = "*"
lazy_static = "*"
riscv = "*"
hermit-dtb = "*"
virtio-drivers = "*"
