[package]
name = "unsubscan"
version = "0.1.0"
edition = "2021"
publish = false

[dependencies]
linkify = "*"
clap = { version = "*", features = ["derive"] }
color-eyre = "*"
walkdir = "*"
open = "*"

[dev-dependencies]
serde_json = "*"
