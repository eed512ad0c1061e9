[package]
name = "star"
version = "0.1.0"
edition = "2021"
publish = false

[dependencies]
nix = { version = "0.26", features = ["event", "fs", "poll", "process", "signal", "time"] }
anyhow = "1"
chrono = "0.4"

[dev-dependencies]
