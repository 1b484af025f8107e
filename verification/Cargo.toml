[package]
name = "container_ci"
version = "0.1.0"
edition = "2021"
publish = false

[dependencies]
bollard = "0.14"
futures-util = "0.3"
git2 = "0.17"
serde = { version = "1", features = ["derive"] }
serde_yaml = "0.9"
tokio = { version = "1", features = ["full"] }
tokio-process-stream = "0.3"
