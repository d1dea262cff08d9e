[package]
name = "nbt"
version = "0.1.0"
edition = "2021"
publish = false

[dependencies]
uuid = "=1.29.0"
itertools = "=0.14.0"
thiserror = "=2.0.21"
clap = { version = "=4.6.7", features = ["derive"] }
clap-file = "=0.3.0"
miette = { version = "=7.6.0", features = ["fancy"] }
anyhow = "=1.0.104"
fs_extra = "=1.3.0"
log = "=0.4.35"
pretty_env_logger = "=0.5.0"
tempfile = "=3.27.0"
bytes = "=1.12.1"
