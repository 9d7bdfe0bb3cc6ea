[package]
name = "credential_mapper"
version = "0.1.0"
edition = "2021"
publish = false

[dependencies]
serde = { version = "=1.0.229", features = ["derive"] }
serde_json = { version = "=1.0.154", features = ["preserve_order", "arbitrary_precision"] }
jsonpath-rust = "=0.5.1"
regex = "=1.13.1"
base64 = "=0.22.1"
codes-iso-3166 = { version = "=0.1.5", features = ["alpha_3_code", "full_name"] }
ureq = { version = "=2.12.1", default-features = false }
axum = "=0.7.9"
tokio = { version = "=1.54.1", features = ["rt-multi-thread", "net", "fs"] }
tracing = "=0.1.44"
tracing-subscriber = "=0.3.23"
eyre = "=0.6.14"
