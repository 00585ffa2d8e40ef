[package]
name = "placeview"
version = "0.1.0"
edition = "2021"
publish = false

[dependencies]
actix-web = "*"
clap = { version = "*", features = ["derive"] }
csv = "*"
env_logger = "*"
glob = "*"
log = "*"
memmap = "*"
mime = "*"
png = "*"
serde = { version = "*", features = ["derive"] }
serde_yaml = "*"
tokio = { version = "*", features = ["rt-multi-thread"] }
