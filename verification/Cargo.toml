[package]
name = "layer_manager"
version = "0.1.0"
edition = "2021"
publish = false

[dependencies]
tokio = { version = "1", default-features = false, features = ["sync"] }
serde = { version = "1", features = ["derive"] }
postgres = "0.19"
tracing = "0.1"
anyhow = "1"
once_cell = "1"

[dev-dependencies]
serde_json = "1"
