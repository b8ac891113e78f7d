[package]
name = "tmux-leap"
version = "0.1.0"
edition = "2021"
publish = false

[dependencies]
regex = "1"
unicode-width = "0.2"
dirs = "*"
which = "*"
serde = { version = "1", features = ["derive"] }
serde_json = "1"
clap = { version = "4", features = ["derive"] }
