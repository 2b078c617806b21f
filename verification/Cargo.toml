[package]
name = "pgsteward"
version = "0.1.0"
edition = "2021"
publish = false

[dependencies]
anyhow = "=1.0.104"
base64 = "=0.23.1"
bytes = "=1.12.1"
clap = { version = "=4.6.7", features = ["derive"] }
fallible-iterator = "=0.2.0"
hmac = "=0.13.0"
humantime-serde = "=1.1.1"
postgres-protocol = "=0.6.12"
prometheus-client = "=0.25.2"
rand = "=0.10.3"
serde = { version = "=1.0.229", features = ["derive"] }
sha2 = "=0.11.1"
stringprep = "=0.1.5"
subtle = "=2.6.1"
tokio = { version = "=1.54.1", features = ["full"] }
tokio-rustls = { version = "=0.26.6", default-features = false, features = ["ring", "logging", "tls12"] }
toml = "=1.1.8"
tracing = "=0.1.44"
tracing-subscriber = { version = "=0.3.23", features = ["env-filter"] }
turmoil = "=0.7.2"

[dev-dependencies]
rcgen = "*"
