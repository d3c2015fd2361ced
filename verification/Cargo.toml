[package]
name = "kos"
version = "0.1.0"
edition = "2021"
publish = false

[dependencies]
xmas-elf = "*"
tinybmp = "*"
embedded-graphics = "*"
riscv = "*"
spin = "*"
lazy_static = "*"
