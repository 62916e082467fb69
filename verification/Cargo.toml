[package]
name = "axon"
version = "0.1.0"
edition = "2021"
publish = false

[dependencies]
anyhow = "1"
base64 = "0.22"
sha2 = "0.10"
x509-parser = "0.16"
serde = { version = "1", features = ["derive"] }
serde_json = "1"
tokio = { version = "1", features = ["sync", "rt", "macros", "time"] }
uuid = { version = "1", features = ["v4"] }
tracing = "0.1"
