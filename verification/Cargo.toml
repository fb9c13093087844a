[package]
name = "oxlide"
version = "0.1.0"
edition = "2021"
publish = false

[dependencies]
pulldown-cmark = { version = "=0.13.6", default-features = false }
unicode-width = "=0.2.0"
ratatui = "=0.29.0"
crossterm = "=0.28.1"
clap = { version = "=4.6.7", features = ["derive"] }
anyhow = "=1.0.104"
serde_json = "=1.0.154"
qrcode = { version = "=0.14.1", default-features = false }
tui-qrcode = "0.1"
keepawake = "0.5"
