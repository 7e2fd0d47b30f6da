[package]
name = "rc5"
version = "0.1.0"
edition = "2021"
publish = false

[dependencies]
random = "*"
clap = { version = "*", features = ["derive"] }
