[package]
name = "flirpi"
version = "0.1.0"
edition = "2021"
publish = false

[dependencies]
libc = "0.2"
rusb = { version = "0.9", features = ["vendored"] }
