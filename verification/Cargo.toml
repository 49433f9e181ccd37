[package]
name = "ggrs"
version = "0.1.0"
edition = "2021"
publish = false

[dependencies]
bincode = "1.3"
serde = { version = "1.0", features = ["derive"] }
instant = "0.1"
rand = "0.8"
parking_lot = "0.12"
tracing = "0.1"
