[package]
name = "line_stats"
version = "0.1.0"
edition = "2021"
publish = false

[dependencies]
anyhow = "1"
env_logger = "0.7"
ignore = "0.4"
log = "0.4"
statistical = "1"
structopt = "0.3"
