[package]
name = "rummikub_solver"
version = "0.1.0"
edition = "2021"
publish = false

[dependencies]
time-graph = { version = "*", features = ["table"] }
