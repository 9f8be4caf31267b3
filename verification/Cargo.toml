[package]
name = "fai_protocol"
version = "0.1.0"
edition = "2021"
publish = false

[dependencies]
anyhow = "1"
axum = "0.7"
blake3 = "1"
chrono = { version = "0.4", features = ["serde"] }
clap = { version = "4", features = ["derive"] }
clap_complete = "4"
futures = "0.3"
libp2p = { version = "0.53", features = ["tokio", "mdns", "tcp", "noise", "yamux", "request-response", "cbor", "macros"] }
rand = "0.8"
rusqlite = { version = "0.31", features = ["bundled"] }
serde = { version = "1", features = ["derive"] }
serde_json = "1"
tokio = { version = "1", features = ["rt-multi-thread", "macros", "time", "net", "sync"] }
toml = "0.8"
tower-http = { version = "0.5", features = ["fs"] }
