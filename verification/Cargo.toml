[package]
name = "equistitch"
version = "0.1.0"
edition = "2021"
publish = false

[dependencies]
anyhow = "*"
image = "*"
clap = { version = "*", features = ["derive"] }
