[package]
name = "finger"
version = "0.1.0"
edition = "2021"
publish = false

[dependencies]
anyhow = "*"
chrono = "*"
crossterm = "*"
mlua = { version = "*", features = ["lua54", "vendored"] }
rand = "*"
ratatui = "*"
serde = { version = "*", features = ["derive"] }
serde_json = "*"
