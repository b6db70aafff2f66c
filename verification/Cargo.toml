[package]
name = "fluid_simulator"
version = "0.1.0"
edition = "2021"
publish = false

[dependencies]
heapless = "0.8"
micromath = { version = "2", features = ["vector"] }
nannou = "0.19"
rand = "0.9"
