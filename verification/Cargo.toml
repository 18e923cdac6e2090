[package]
name = "rust-statement-spacing"
version = "0.1.0"
edition = "2021"
publish = false

[dependencies]
ra_ap_syntax = "=0.0.335"
clap = { version = "=4.6.7", features = ["derive", "env"] }
serde = { version = "=1.0.229", features = ["derive"] }
serde_json = "=1.0.154"
toml = "=1.1.8"
sha2 = "=0.10.9"
tempfile = "=3.27.0"
globset = "=0.4.21"
tokio = { version = "=1.54.1", features = ["rt-multi-thread", "process", "io-util", "signal", "time", "macros"] }
rustix = { version = "=1.1.6", features = ["fs", "process"] }
