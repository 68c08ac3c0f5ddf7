[package]
name = "bridge_engine"
version = "0.1.0"
edition = "2021"
publish = false

[dependencies]
rand_core = "*"
serde = { version = "1", features = ["derive"] }
thiserror = "*"
