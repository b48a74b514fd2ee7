[package]
name = "pinoq"
version = "0.1.0"
edition = "2021"
publish = false

[dependencies]
openssl = "*"
rand = "*"
memmap = "*"
libc = "*"
fuser = "*"
clap = { version = "*", features = ["derive"] }
anyhow = "*"
log = "*"
pretty_env_logger = "*"
serde = { version = "*", features = ["derive"] }
toml = "*"
thiserror = "*"
