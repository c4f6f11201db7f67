[package]
name = "string_abi"
version = "0.1.0"
edition = "2021"
publish = false

[dependencies]

[dev-dependencies]
libc = "0.2"
