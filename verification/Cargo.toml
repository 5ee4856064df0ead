[package]
name = "driver"
version = "0.1.0"
edition = "2021"
publish = false

[dependencies]
anyhow = "1"
chrono = { version = "0.4", default-features = false, features = ["clock", "serde"] }
clap = { version = "4", features = ["derive", "env"] }
futures = "0.3"
lapin = { version = "2", default-features = false }
num = "0.4"
primitive-types = { version = "0.12", features = ["impl-serde"] }
rand = "0.8"
reqwest = { version = "0.11", default-features = false }
serde = { version = "1", features = ["derive"] }
serde_json = "1"
serde_with = "2"
thiserror = "1"
tokio = { version = "1", features = ["rt", "sync", "time", "macros"] }
tracing = "0.1"
