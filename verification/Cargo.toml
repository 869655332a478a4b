[package]
name = "twk"
version = "0.1.0"
edition = "2021"
publish = false

[dependencies]
nucleo-matcher = "*"
uuid = { version = "*", features = ["v4"] }
dirs = "*"
clap = { version = "*", features = ["derive"] }
colored = "*"
