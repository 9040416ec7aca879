[package]
name = "lsp_syslog_ng"
version = "0.1.0"
edition = "2021"
publish = false

[dependencies]
tower-lsp = "*"
tokio = { version = "*", features = ["full"] }
serde_json = "*"
env_logger = "*"
glob = "*"
once_cell = "*"
