[package]
name = "zellij-overview"
version = "0.1.0"
edition = "2021"
publish = false

[dependencies]
ratatui = "*"
crossterm = "*"
zellij-tile = "0.44"
