[package]
name = "rustmetrics"
version = "0.1.0"
edition = "2021"
publish = false

[dependencies]
reqwest = { version = "0.12", default-features = false }
tokio = { version = "1", features = ["rt", "time", "net", "macros"] }
