[package]
name = "pop_vcs"
version = "0.10.2"
edition = "2021"
publish = false

[dependencies]
anyhow = "1"
axum = "0.7"
base64 = "0.22"
blake3 = "1"
clap = { version = "4", features = ["derive"] }
globset = "0.4"
hex = "0.4"
rand = "0.8"
rayon = "1"
serde = { version = "1", features = ["derive"] }
serde_json = "1"
tokio = { version = "1", features = ["rt-multi-thread", "net", "signal", "macros"] }
tower = "0.5"
tower-http = { version = "0.6", features = ["limit", "timeout"] }
tracing = "0.1"
tracing-subscriber = { version = "0.3", features = ["env-filter"] }
zstd = "0.13"
