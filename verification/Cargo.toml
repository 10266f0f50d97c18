[package]
name = "agent_directory"
version = "0.1.0"
edition = "2021"
publish = false

[dependencies]
nostr = "=0.45.6"
serde = { version = "=1.0.229", features = ["derive"] }
serde_json = "=1.0.154"
