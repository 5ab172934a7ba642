[package]
name = "runtime_core"
version = "0.1.0"
edition = "2021"
publish = false

[dependencies]
gc = { version = "=0.5.1", features = ["derive"] }
