[package]
name = "lispcad"
version = "0.1.0"
edition = "2021"
publish = false

[dependencies]
minecraft-client-rs = "*"
