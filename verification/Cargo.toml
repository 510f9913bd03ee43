[package]
name = "podcast"
version = "0.1.0"
edition = "2021"
publish = false

[dependencies]
quick-xml = "0.37"
regex = "1"
serde_json = "1"
reqwest = { version = "0.12", default-features = false, features = ["rustls-tls", "json", "multipart"] }
tokio = { version = "1", features = ["process"] }
tracing = "0.1"
uuid = { version = "1", features = ["v4"] }
