[package]
name = "harmont_cli"
version = "0.1.0"
edition = "2021"
publish = false

[dependencies]
anyhow = "=1.0.104"
semver = "=1.0.28"
reqwest = { version = "=0.12.28", default-features = false }
thiserror = "=2.0.21"
clap = { version = "=4.6.7", features = ["derive", "env"] }
tokio = { version = "=1.54.1", features = ["rt-multi-thread", "macros", "process", "sync"] }
serde = { version = "=1.0.229", features = ["derive"] }
serde_json = "=1.0.154"
console = "=0.15.11"
owo-colors = "=4.4.0"
tracing-subscriber = { version = "=0.3.23", features = ["env-filter"] }
extism = "=1.30.0"
