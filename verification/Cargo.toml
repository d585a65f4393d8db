[package]
name = "ratio_spoof_core"
version = "0.1.0"
edition = "2021"
publish = false

[dependencies]
sha1 = "=0.10.7"
rand = "=0.8.8"
rand_regex = "=0.15.1"
chrono = { version = "=0.4.45", features = ["serde"] }
serde = { version = "=1.0.229", features = ["derive"] }
serde_json = "=1.0.154"
reqwest = { version = "=0.12.28", default-features = false, features = ["gzip", "default-tls"] }
tokio = { version = "=1.54.1", features = ["rt-multi-thread", "macros", "time", "sync"] }
hickory-resolver = "=0.24.4"
anyhow = "=1.0.104"
