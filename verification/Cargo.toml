[package]
name = "netsketch"
version = "0.1.0"
edition = "2021"
publish = false

[dependencies]
flate2 = "1"
tokio = { version = "1", features = ["sync", "rt-multi-thread", "macros"] }
warp = "0.3"
futures = "0.3"
pretty_env_logger = "0.5"
