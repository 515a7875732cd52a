[package]
name = "mio"
version = "0.1.0"
edition = "2021"
publish = false

[dependencies]
libc = "0.2"
