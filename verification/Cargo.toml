[package]
name = "stalepid"
version = "0.1.0"
edition = "2021"
publish = false

[dependencies]
anyhow = "=1.0.104"
clap = { version = "=4.6.7", features = ["derive"] }
logroller = "=0.1.12"
serde = { version = "=1.0.229", features = ["derive"] }
serde_yaml = "=0.9.34"
sysinfo = "=0.37.2"
tokio = { version = "=1.54.1", features = ["full"] }
tracing = "=0.1.44"
tracing-appender = "=0.2.5"
tracing-subscriber = "=0.3.23"
walkdir = "=2.5.0"
