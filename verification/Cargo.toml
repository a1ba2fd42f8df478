[package]
name = "banshee"
version = "0.1.0"
edition = "2021"
publish = false

[dependencies]
clap = "*"
log = "*"
signal-hook = "*"
tokio = { version = "*", features = ["rt-multi-thread", "macros", "sync", "time"] }
