[package]
name = "unbind"
version = "0.1.0"
edition = "2021"
publish = false

[dependencies]
anyhow = "1"
clap = { version = "4", features = ["derive"] }
crossterm = "0.28"
nix = { version = "0.29", features = ["signal"] }
ratatui = "0.29"
serde = { version = "1", features = ["derive"] }
serde_json = "1"
