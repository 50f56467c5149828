[package]
name = "deckt"
version = "0.1.0"
edition = "2021"
publish = false

[dependencies]
data-encoding = "=2.11.1"
lordeckcodes = "=1.1.0"
serde = { version = "*", features = ["derive"] }
serde_json = "*"
serde_urlencoded = "*"
chrono = { version = "=0.4.45", features = ["serde"] }
reqwest = { version = "=0.13.5", default-features = false, features = ["json"] }
tokio = { version = "*", features = ["rt-multi-thread", "macros", "time", "sync"] }
log = "*"
pretty_env_logger = "*"
anyhow = "*"
thiserror = "*"
