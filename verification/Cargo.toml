[package]
name = "lanchat"
version = "0.1.0"
edition = "2021"
publish = false

[dependencies]
libp2p = { version = "*", features = ["tokio", "tcp", "noise", "yamux", "quic", "gossipsub", "mdns", "macros"] }
tokio = { version = "*", features = ["rt-multi-thread", "sync", "macros"] }
serde = { version = "*", features = ["derive"] }
rmp-serde = "*"
