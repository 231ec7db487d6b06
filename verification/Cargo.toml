[package]
name = "bagr"
version = "0.1.0"
edition = "2021"
publish = false

[dependencies]
atty = "=0.2.14"
chrono = { version = "0.4", default-features = false, features = ["clock"] }
clap = { version = "=3.2.25", features = ["derive"] }
env_logger = "=0.9.3"
log = "=0.4.34"
md-5 = "0.10"
serde = { version = "=1.0.229", features = ["derive"] }
sha1 = "0.10"
sha2 = "0.10"
snafu = "=0.7.5"
