[package]
name = "wad"
version = "0.1.0"
edition = "2021"
publish = false

[dependencies]
ulid = "*"
anyhow = "*"
chrono = "*"
clap = { version = "*", features = ["derive"] }
dirs = "*"
edit = "*"
inquire = "*"
tempfile = "*"
which = "*"

[dev-dependencies]
serde_json = "*"
