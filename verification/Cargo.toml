[package]
name = "channel_monitor"
version = "0.1.0"
edition = "2021"
publish = false

[dependencies]
open = "*"
reqwest = { version = "*", default-features = false, features = ["blocking", "json"] }
serde = { version = "*", features = ["derive"] }
serde_json = "*"
