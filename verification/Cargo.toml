[package]
name = "xmd"
version = "0.1.0"
edition = "2021"
publish = false

[dependencies]
libflate = "*"
clap = { version = "*", features = ["derive"] }
