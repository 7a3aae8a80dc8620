[package]
name = "woofind"
version = "0.1.0"
edition = "2021"
publish = false

[dependencies]
dashmap = "6"
nucleo = "0.5"
tree-sitter = "0.24"
tree-sitter-go = "0.23"
serde = { version = "1", features = ["derive"] }
serde_json = "1"
bincode = "1"
anyhow = "1"
walkdir = "2"
dirs = "5"
memmap2 = "0.9"
chrono = "0.4"
colored = "2"
clap = { version = "4", features = ["derive"] }
tokio = { version = "1", features = ["rt-multi-thread", "macros", "net", "signal"] }
axum = "0.7"
tower-http = { version = "0.5", features = ["cors"] }
tracing = "0.1"
tracing-subscriber = { version = "0.3", features = ["env-filter"] }
notify = "6"
crossbeam-channel = "0.5"
rayon = "1"
