[package]
name = "jevlint"
version = "0.1.0"
edition = "2021"
publish = false

[dependencies]
anyhow = "=1.0.104"
async-trait = "=0.1.92"
blake3 = "=1.8.7"
clap = { version = "=4.6.7", features = ["derive"] }
globset = "=0.4.21"
ignore = "=0.4.34"
jsonc-parser = { version = "=0.34.0", features = ["serde"] }
notify = "=8.2.1"
redb = "=4.4.0"
reqwest = { version = "=0.12.28", default-features = false, features = ["json", "rustls-tls"] }
schemars = "=1.2.3"
serde = { version = "=1.0.229", features = ["derive"] }
serde_json = "=1.0.154"
tempfile = "=3.27.0"
tokio = { version = "=1.54.1", features = ["full"] }
url = "=2.5.8"
