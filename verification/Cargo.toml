[package]
name = "fastapi_lsp"
version = "0.1.0"
edition = "2021"
publish = false

[dependencies]
clap = { version = "4", features = ["derive"] }
serde = { version = "1", features = ["derive"] }
serde_json = "1"
toml = "*"
owo-colors = "*"
walkdir = "2"
tower-lsp-server = "*"
tokio = { version = "1", features = ["macros", "rt-multi-thread", "io-std", "net"] }
tracing = "0.1"
tracing-subscriber = { version = "0.3", features = ["env-filter"] }
