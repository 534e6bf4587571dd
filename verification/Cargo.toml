[package]
name = "ku"
version = "0.1.0"
edition = "2021"
publish = false

[dependencies]
rand = "*"
clap = { version = "*", features = ["derive"] }
color-eyre = "*"
colored = "*"
crossterm = "*"
ratatui = "*"
