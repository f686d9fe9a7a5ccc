[package]
name = "ceno_boot"
version = "0.1.0"
edition = "2021"
publish = false

[dependencies]
goblin = "*"
fdt-rs = "*"
virtio-drivers = "*"
riscv = "*"
riscv-rt = "*"
sbi-rt = "*"
embedded-alloc = { version = "*", features = ["tlsf"] }
