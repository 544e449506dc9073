[package]
name = "multa"
version = "0.1.0"
edition = "2021"
publish = false

[dependencies]
clap = { version = "3", features = ["derive"] }
clap_complete = "3"
crossterm = "0.19"
dirs = "4"
env_logger = "0.9"
rand = "0.8"
serde = { version = "1", features = ["derive"] }
serde_json = "1"
