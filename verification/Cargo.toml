[package]
name = "dragonfly-opengrep"
version = "0.1.0"
edition = "2021"
publish = false

[dependencies]
color-eyre = { version = "=0.6.5", default-features = false }
reqwest = { version = "=0.12.28", default-features = false, features = ["blocking", "json"] }
serde = { version = "=1.0.229", features = ["derive"] }
serde_json = "=1.0.154"
sha2 = "*"
tempfile = "=3.27.0"
tracing = "=0.1.44"
walkdir = "=2.5.0"
xxhash-rust = { version = "=0.8.19", features = ["xxh3"] }
