[package]
name = "snapper"
version = "0.1.0"
edition = "2021"
publish = false

[dependencies]
anyhow = "1"
bcs = "0.1"
fastcrypto = "0.1"
futures = "0.3"
parking_lot = "0.12"
prometheus = "0.13"
rand = "0.8"
thiserror = "1"
tokio = { version = "1", features = ["full"] }
tracing = "0.1"
