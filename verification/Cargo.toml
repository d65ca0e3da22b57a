[package]
name = "buran"
version = "0.1.0"
edition = "2021"
publish = false

[dependencies]
anyhow = "1"
base64 = "0.22"
httparse = "1"
memchr = "2"
nix = { version = "0.30", features = ["socket", "process", "user", "poll", "signal", "fs", "uio"] }
regex = "1"
rustix = { version = "1", features = ["process", "fs", "system"] }
serde = { version = "1", features = ["derive"] }
serde_json = "1"
serde_norway = "0.9"
sha1 = "0.10"
socket2 = { version = "0.6", features = ["all"] }
tokio = { version = "1", features = ["full"] }
tracing = "0.1"
tracing-subscriber = { version = "0.3", features = ["env-filter"] }
