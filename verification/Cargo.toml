[package]
name = "passpick"
version = "0.1.0"
edition = "2021"
publish = false

[dependencies]
fuzzy-matcher = "*"
crossterm = "*"
ratatui = "*"
walkdir = "*"
