[package]
name = "ambr"
version = "0.1.0"
edition = "2021"
publish = false

[dependencies]
sqlx = { version = "*", default-features = false, features = ["sqlite", "runtime-tokio"] }
tokio = { version = "*", features = ["rt-multi-thread", "macros", "time", "sync"] }
sysinfo = "*"
crossterm = "*"
ratatui = "*"
dirs = "*"
