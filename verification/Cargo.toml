[package]
name = "askey"
version = "0.1.0"
edition = "2021"
publish = false

[dependencies]
anyhow = "1"
clap = { version = "4", features = ["derive"] }
crossterm = "0.28"
ratatui = "0.29"
ansi-to-tui = "7"
flate2 = "1"
image = { version = "0.25", default-features = false, features = ["gif", "png", "jpeg", "webp"] }
owo-colors = "4"
serde = { version = "1", features = ["derive"] }
serde_json = "1"
