[package]
name = "tup"
version = "0.1.0"
edition = "2021"
publish = false

[dependencies]
anyhow = "1"
clap = { version = "4", features = ["derive"] }
env_logger = "*"
libc = "0.2"
mlua = { version = "0.9", features = ["lua54", "vendored"] }
notify = "6"
rusqlite = { version = "*", features = ["bundled"] }
thiserror = "1"

[dev-dependencies]
tempfile = "3"
