[package]
name = "native32emu"
version = "0.1.0"
edition = "2021"
publish = false

[dependencies]
rand = "*"
clap = { version = "4", features = ["derive"] }
minifb = "*"
anyhow = "1"
log = "0.4"
env_logger = "*"
image = { version = "*", default-features = false, features = ["png"] }
