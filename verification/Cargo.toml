[package]
name = "rvc"
version = "0.1.0"
edition = "2021"
publish = false

[dependencies]
hex = "0.4"
sha1 = "0.10"
flate2 = "1"
base64 = "0.13"
clap = { version = "4", features = ["derive"] }
tokio = { version = "1", features = ["full"] }
libp2p = { version = "0.53", features = ["tokio", "tcp", "noise", "yamux", "mdns", "request-response", "macros"] }
futures = "0.3"
async-trait = "0.1"
serde = { version = "1", features = ["derive"] }
