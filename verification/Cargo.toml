[package]
name = "wperf"
version = "0.1.0"
edition = "2021"
publish = false

[dependencies]
petgraph = "0.8"
serde = { version = "1", features = ["derive"] }
serde_json = "1"
clap = { version = "4", features = ["derive"] }
signal-hook = "0.3"
libc = "0.2"
