[package]
name = "codestacks"
version = "0.1.0"
edition = "2021"
publish = false

[dependencies]
mlua = { version = "0.10", features = ["luajit", "module"] }
once_cell = "1"
serde = { version = "1", features = ["derive"] }
serde_json = "1"
