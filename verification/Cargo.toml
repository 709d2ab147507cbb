[package]
name = "moq"
version = "0.1.0"
edition = "2021"
publish = false

[dependencies]
bytes = "1"
tokio = { version = "1", features = ["rt-multi-thread", "macros", "io-util", "io-std", "sync"] }
anyhow = "1"
clap = { version = "4", features = ["derive"] }
url = "2"
chrono = "0.4"
tracing = "0.1"
async-channel = "2"
