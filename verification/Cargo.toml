[package]
name = "grit"
version = "0.1.0"
edition = "2021"
publish = false

[dependencies]
git2 = "*"
glob = "*"
chrono = "*"
clap = { version = "*", features = ["derive"] }
csv = "*"
anyhow = "*"
tokio = { version = "*", features = ["rt", "rt-multi-thread", "macros"] }
futures = "*"
indicatif = "*"
log = "*"
simple_logger = "*"
