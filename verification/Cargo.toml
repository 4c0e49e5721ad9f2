[package]
name = "git_diff"
version = "0.1.0"
edition = "2021"
publish = false

[dependencies]
anyhow = "=1.0.104"
similar = { version = "=2.7.0", features = ["inline"] }
unicode-width = "=0.2.0"
crossterm = "=0.28.1"
ratatui = "=0.29.0"
