[package]
name = "sizr"
version = "0.2.0"
edition = "2021"
publish = false

[dependencies]
anyhow = "1"
clap = { version = "4", features = ["derive"] }
humansize = "2"
walkdir = "2"
