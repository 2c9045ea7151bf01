[package]
name = "rereader"
version = "0.1.0"
edition = "2021"
publish = false

[dependencies]
anyhow = "=1.0.104"
clap = { version = "=4.6.7", features = ["derive"] }
crossterm = "=0.29.0"
dirs = "=7.0.0"
ego-tree = "=0.11.1"
epub = "=2.1.6"
mobi = "=0.8.0"
ratatui = "=0.30.2"
scraper = "=0.29.0"
serde = { version = "=1.0.229", features = ["derive"] }
serde_json = "=1.0.154"
unicode-width = "=0.2.3"
