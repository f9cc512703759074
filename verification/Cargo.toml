[package]
name = "onedrive_hosts"
version = "0.1.0"
edition = "2021"
publish = false

[dependencies]
chrono = "*"
chrono-tz = "*"
tokio = { version = "*", features = ["rt-multi-thread", "macros"] }
trust-dns-resolver = { version = "*", features = ["dns-over-https-rustls"] }
