[package]
name = "hinata"
version = "0.1.0"
edition = "2021"
publish = false

[dependencies]
anstream = "0.6"
chrono = "0.4"
clap = { version = "4", features = ["derive"] }
color-eyre = "0.6"
eyre = "0.6"
log = { version = "0.4", features = ["std"] }
node-semver = "2"
owo-colors = "4"
petgraph = "0.8"
reqwest = { version = "0.12", default-features = false, features = ["rustls-tls"] }
serde = { version = "1", features = ["derive"] }
serde_json = { version = "1", features = ["preserve_order", "raw_value"] }
serde_yaml = "0.9"
sha2 = "0.10"
tempfile = "3"
tokio = { version = "1", features = ["rt-multi-thread", "sync"] }
