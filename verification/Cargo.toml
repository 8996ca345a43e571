[package]
name = "bis2"
version = "0.1.0"
edition = "2021"
publish = false

[dependencies]
unicode-width = "*"
serde = { version = "*", features = ["derive"] }
serde_json = "*"
dirs = "*"
libc = "*"
term = "*"
threadpool = "*"
