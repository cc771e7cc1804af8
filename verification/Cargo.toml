[package]
name = "dd_monitor"
version = "0.1.0"
edition = "2021"
publish = false

[dependencies]
anyhow = "*"
atty = "*"
chrono = "*"
csv = "*"
serde = "*"
serde_derive = "*"
