[package]
name = "libtaurus"
version = "0.1.0"
edition = "2021"
publish = false

[dependencies]
blake3 = "1"
hex = "0.4"
chrono = { version = "0.4", default-features = false, features = ["clock", "std"] }
rand = "0.8"
tokio = { version = "1", features = ["sync", "macros", "rt-multi-thread", "time"] }
clap = { version = "4", features = ["cargo"] }
tracing = "0.1"
tracing-subscriber = { version = "0.3", features = ["env-filter"] }
thiserror = "1"
futures = "0.3"
etcetera = "0.8"
serde = { version = "1", features = ["derive"] }
serde_json = "1"
strum = { version = "0.26", features = ["derive"] }
libp2p = { version = "0.53", features = ["gossipsub", "identify", "kad", "mdns", "request-response", "tokio", "tcp", "noise", "yamux", "macros", "ed25519", "upnp"] }
