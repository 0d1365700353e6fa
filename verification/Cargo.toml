[package]
name = "genome_mirror"
version = "0.1.0"
edition = "2021"
publish = false

[dependencies]
md5 = "0.7"
flate2 = "1"
anyhow = "1"
clap = { version = "4", features = ["derive"] }
env_logger = "0.11"
log = "0.4"
tokio = { version = "1", features = ["full"] }
