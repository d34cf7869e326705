[package]
name = "adb_host"
version = "0.1.0"
edition = "2021"
publish = false

[dependencies]
clap = { version = "*", features = ["derive"] }
log = "*"
qrcode = { version = "*", default-features = false }
