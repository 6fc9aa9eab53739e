[package]
name = "aries"
version = "0.1.0"
edition = "2021"
publish = false

[dependencies]
crossterm = "*"
openssl = "*"
ratatui = "*"
tui-input = "*"
tui-scrollview = "*"
