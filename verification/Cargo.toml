[package]
name = "delta_backend"
version = "0.1.0"
edition = "2021"
publish = false

[dependencies]
anyhow = "1"
clap = { version = "4", features = ["derive"] }
crossterm = "0.27"
nucleo = "0.5"
ratatui = "0.26"
serde_json = "1"
serde_yaml = "0.9"
similar = "2"
sqlx = { version = "0.7", default-features = false, features = ["json", "runtime-tokio", "sqlite"] }
tokio = { version = "1", features = ["rt-multi-thread"] }
tracing = "0.1"
tracing-subscriber = "0.3"
