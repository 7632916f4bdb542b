[package]
name = "clubs_diamonds"
version = "0.1.0"
edition = "2021"
publish = false

[dependencies]
chrono = "0.4"
ratatui = "0.29"
crossterm = "0.28"
lazy_static = "1"
