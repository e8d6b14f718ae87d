[package]
name = "maze"
version = "0.1.0"
edition = "2021"
publish = false

[dependencies]
rand = "*"
clap = { version = "*", features = ["cargo"] }
color-eyre = "*"
ratatui = "*"
