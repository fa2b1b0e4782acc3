[package]
name = "polyresolver"
version = "0.1.0"
edition = "2021"
publish = false

[dependencies]
anyhow = "*"
async-trait = "*"
notify = "*"
serde = { version = "*", features = ["derive"] }
serde_yaml = "*"
tokio = { version = "*", features = ["full"] }
tracing = "*"
tracing-log = "*"
tracing-subscriber = "*"
trust-dns-resolver = "*"
trust-dns-server = "*"
