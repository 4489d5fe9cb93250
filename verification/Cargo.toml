[package]
name = "diskovery"
version = "0.1.0"
edition = "2021"
publish = false

[dependencies]
anyhow = "1"
crossterm = "0.28"
humansize = "2"
ratatui = "0.29"
rayon = "1"
sysinfo = "0.33"
walkdir = "2"
