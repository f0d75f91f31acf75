[package]
name = "keylog"
version = "0.1.0"
edition = "2021"
publish = false

[dependencies]
chrono = "0.4"
rusqlite = { version = "*", features = ["bundled"] }
rdev = "*"
dirs = "*"
serde_json = "1"
log = "0.4"
env_logger = "*"
rust_xlsxwriter = "*"
