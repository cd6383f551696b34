[package]
name = "stash_tree"
version = "0.1.0"
edition = "2021"
publish = false

[dependencies]
anyhow = "=1.0.104"
clap = { version = "=4.6.7", features = ["derive"] }
color-eyre = "=0.6.5"
crossterm = { version = "=0.29.0", features = ["event-stream"] }
futures = "=0.3.34"
git2 = { version = "=0.21.0", default-features = false }
ratatui = "=0.30.2"
signal-hook = "=0.3.18"
signal-hook-tokio = { version = "=0.4.0", features = ["futures-v0_3"] }
tokio = { version = "=1.53.2", features = ["full"] }
tokio-util = "=0.7.19"
tracing = "=0.1.44"
tracing-appender = "=0.2.5"
tracing-subscriber = { version = "=0.3.23", features = ["env-filter"] }
