[package]
name = "holdem_equity"
version = "0.1.0"
edition = "2021"
publish = false

[dependencies]
rand = "=0.8.8"
poker = "=0.7.0"
rs_poker = { version = "=5.0.0", default-features = false }
serde = { version = "=1.0.229", features = ["derive"] }
serde_json = "=1.0.151"
uuid = { version = "=1.27.0", features = ["v4"] }
