[package]
name = "selara"
version = "0.1.0"
edition = "2021"
publish = false

[dependencies]
anyhow = "*"
cpal = "*"
crossbeam-channel = "*"
crossterm = "*"
ctrlc = "*"
ratatui = "*"
realfft = "*"
