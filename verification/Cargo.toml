[package]
name = "hana_bevy_markdown"
version = "0.1.0"
edition = "2021"
publish = false

[dependencies]
ron = "=0.8.1"
serde = { version = "=1.0.229", features = ["derive"] }
thiserror = "=1.0.69"
