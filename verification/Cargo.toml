[package]
name = "stablessh"
version = "0.1.0"
edition = "2021"
publish = false

[dependencies]
x509-parser = "0.15"
tokio = { version = "1", features = ["rt-multi-thread", "io-util", "io-std", "net", "sync", "time", "signal", "macros"] }
quinn = "0.10"
rustls = { version = "0.21", features = ["dangerous_configuration"] }
rcgen = "0.11"
hostname = "0.3"
anyhow = "1"
clap = { version = "4", features = ["derive"] }
log = "0.4"
env_logger = "0.10"
