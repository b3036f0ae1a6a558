[package]
name = "agents_md"
version = "0.1.0"
edition = "2021"
publish = false

[dependencies]
tokio = { version = "1", features = ["fs"] }
toml = "0.9"
tracing = "0.1"
