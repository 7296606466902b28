[package]
name = "bzip2rs"
version = "0.1.0"
edition = "2021"
publish = false

[dependencies]
banzai = "=0.3.2"
clap = { version = "=4.6.7", features = ["derive"] }
env_logger = "=0.11.11"
log = "=0.4.34"

[dev-dependencies]
bzip2-rs = "=0.1.2"
