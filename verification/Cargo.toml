[package]
name = "corekernel"
version = "0.1.0"
edition = "2021"
publish = false

[dependencies]
bootloader_api = "=0.11.17"
spin = "=0.12.3"
uart_16550 = "=0.8.1"
x86_64 = "=0.14.13"
xmas-elf = "=0.10.0"
