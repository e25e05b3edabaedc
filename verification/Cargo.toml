[package]
name = "mcproxy"
version = "0.1.0"
edition = "2021"
publish = false

[dependencies]
anyhow = "*"
clap = { version = "*", features = ["derive"] }
dns-lookup = "*"
log = "*"
polling = "*"
serde_json = "*"
socket2 = { version = "*", features = ["all"] }
tracing = "*"
tracing-subscriber = { version = "*", features = ["env-filter"] }
uuid = "*"
