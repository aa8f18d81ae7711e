[package]
name = "rex_build"
version = "0.1.0"
edition = "2021"
publish = false

[dependencies]
sha2 = "=0.10.9"
hex = "=0.4.3"
serde = { version = "=1.0.229", features = ["derive"] }
serde_json = "=1.0.154"
anyhow = "1"
tracing = "0.1"
reqwest = { version = "0.12", default-features = false, features = ["blocking", "rustls-tls"] }
