[package]
name = "cpc"
version = "0.1.0"
edition = "2021"
publish = false

[dependencies]
sha3 = "0.10"
rand = "0.8"
serde = { version = "1", features = ["derive"] }
