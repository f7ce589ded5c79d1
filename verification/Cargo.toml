[package]
name = "cfh"
version = "0.1.0"
edition = "2021"
publish = false

[dependencies]
rand = "0.8"
uuid = { version = "1", features = ["v4", "serde"] }
serde = { version = "1", features = ["derive"] }
serde_json = "1"
tokio = { version = "1", features = ["rt-multi-thread", "macros", "sync", "io-std", "io-util"] }
warp = "0.3"
futures = "0.3"
log = "0.4"
anyhow = "1"
