[package]
name = "phone_companion"
version = "0.1.0"
edition = "2021"
publish = false

[dependencies]
chrono = "*"
dirs = "*"
libc = "*"
zbus = "*"
