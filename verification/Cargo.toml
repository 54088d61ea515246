[package]
name = "vyom"
version = "0.1.0"
edition = "2021"
publish = false

[dependencies]
sha2 = "=0.11.0"
tokio = { version = "=1.53.2", features = ["rt", "rt-multi-thread", "fs", "io-util", "io-std", "net", "macros"] }
jiff = "=0.2.38"
serde = { version = "=1.0.229", features = ["derive"] }
serde_json = "=1.0.151"
axum = "=0.8.9"
clap = { version = "=4.6.7", features = ["derive"] }
thiserror = "=2.0.21"
tracing = "=0.1.44"
tracing-subscriber = "=0.3.23"
