[package]
name = "buzz-agents"
version = "0.1.0"
edition = "2021"
publish = false

[dependencies]
chrono = "0.4"
nostr = { version = "0.44", features = ["nip44"] }
serde = { version = "1", features = ["derive"] }
serde_json = "1"
tracing = "0.1"
uuid = { version = "1", features = ["v4", "serde"] }
