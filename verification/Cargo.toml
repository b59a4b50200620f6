[package]
name = "filessh"
version = "0.1.0"
edition = "2021"
publish = false

[dependencies]
async-lock = "*"
chrono = "*"
clap = { version = "*", features = ["derive"] }
crossbeam = "*"
russh = "*"
russh-sftp = "*"
tokio = { version = "*", features = ["full"] }
