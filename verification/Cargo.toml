[package]
name = "flightradar"
version = "0.1.0"
edition = "2021"
publish = false

[dependencies]
rand = "0.8"
smallvec = "1"
uuid = { version = "1", features = ["v4"] }
glam = { version = "0.24", features = ["serde"] }
tokio = { version = "1", features = ["rt-multi-thread", "time", "sync", "macros"] }
serde = { version = "1", features = ["derive"] }
rmp-serde = "1"
