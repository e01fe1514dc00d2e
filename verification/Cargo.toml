[package]
name = "agent-spy"
version = "0.1.0"
edition = "2021"
publish = false

[dependencies]
chrono = "0.4"
image = "0.25"
notify = "8"
x11rb = { version = "0.13", features = ["image"] }
