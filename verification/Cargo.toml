[package]
name = "lsp_core"
version = "0.1.0"
edition = "2021"
publish = false

[dependencies]
serde = { version = "1", features = ["derive"] }
serde_json = "1"
thiserror = "1"
tokio = { version = "1", features = ["rt", "sync", "time", "macros", "process", "io-util"] }
tracing = "0.1"
specta = "1"

[dev-dependencies]
tempfile = "3"
