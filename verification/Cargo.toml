[package]
name = "syscall_injection"
version = "0.1.0"
edition = "2021"
publish = false

[dependencies]
dashmap = "*"
parking_lot = "*"
lazy_static = "*"
strum = "*"
strum_macros = "*"
