[package]
name = "punto_rs"
version = "0.1.0"
edition = "2021"
publish = false

[dependencies]
evdev = "=0.12.2"
dbus = { version = "=0.9.12", features = ["vendored"] }
libc = "=0.2.191"
signal-hook = "=0.3.18"
