[package]
name = "hookmaster"
version = "0.1.0"
edition = "2021"
publish = false

[dependencies]
anyhow = "*"
pico-args = "*"
tracing = "*"
