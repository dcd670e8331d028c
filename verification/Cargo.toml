[package]
name = "keepalive"
version = "0.1.0"
edition = "2021"

[dependencies]
anyhow = "1"
chrono = "0.4"
clap = { version = "4", features = ["derive"] }
nix = { version = "0.29", features = ["signal"] }
signal-hook = "0.3"
