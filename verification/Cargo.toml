[package]
name = "uaps"
version = "0.1.0"
edition = "2021"
publish = false

[dependencies]
anyhow = "1"
clap = { version = "4", features = ["derive"] }
libc = "0.2"
perf-event-open-sys = "4"
regex = "1"
serde_json = "1"
