[package]
name = "reconciler"
version = "0.1.0"
edition = "2021"
publish = false

[dependencies]
dispatch = "0.2"
polyhorn-layout = "*"
