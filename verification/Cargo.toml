[package]
name = "trydir"
version = "0.1.0"
edition = "2021"
publish = false

[dependencies]
anyhow = "1"
chrono = "0.4"
clap = { version = "4", features = ["derive"] }
crossterm = "0.28"
nucleo-matcher = "0.3"
ratatui = "0.29"
