[package]
name = "life_tui"
version = "0.1.0"
edition = "2021"
publish = false

[dependencies]
rayon = "=1.12.0"
crossterm = "0.29"
ratatui = "0.30"
csv = "=1.4.0"
serde = { version = "=1.0.229", features = ["derive"] }
rfd = "=0.15.4"
color-eyre = "=0.6.5"
