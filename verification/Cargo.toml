[package]
name = "rosy"
version = "0.1.0"
edition = "2021"
publish = false

[dependencies]
bit_field = "0.10"
bootloader = "0.9"
spin = "0.5"
