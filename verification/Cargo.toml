[package]
name = "simple_file_transfer_v2"
version = "0.1.0"
edition = "2021"
publish = false

[dependencies]
anyhow = "1"
rand = { version = "0.8", features = ["small_rng"] }
rmp-serde = "1"
serde = { version = "1", features = ["derive"] }
thiserror = "1"
time = { version = "0.3", features = ["serde", "local-offset"] }
tokio = { version = "1", features = ["full"] }
