[package]
name = "top_logs"
version = "1.0.0"
edition = "2021"
publish = false

[dependencies]
access_log_parser = "*"
anyhow = "1"
chrono = "0.4"
clap = { version = "4", features = ["cargo"] }
defaultmap = "0.5"
http = "*"
prettytable-rs = "*"
