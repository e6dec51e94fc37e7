[package]
name = "workflow-runner"
version = "0.1.0"
edition = "2021"
publish = false

[dependencies]
anyhow = "1"
axum = "0.7"
chrono = { version = "0.4", default-features = false, features = ["clock", "std"] }
clap = { version = "4", features = ["derive"] }
comfy-table = "7"
glob = "0.3"
regex = "1"
reqwest = { version = "0.12", default-features = false, features = ["json", "blocking"] }
rusqlite = { version = "0.31", features = ["bundled"] }
schemars = "0.8"
serde = { version = "1", features = ["derive"] }
serde_json = "1"
serde_yaml = "0.9"
tokio = { version = "1", features = ["rt-multi-thread", "macros", "net", "sync"] }
uuid = { version = "1", features = ["v4"] }
