[package]
name = "zcore"
version = "0.1.0"
edition = "2021"
publish = false

[dependencies]
xmas-elf = "0.7"
bitflags = "1"
spin = "0.5"
log = "0.4"
env_logger = "0.7"
async-std = { version = "1", features = ["attributes"] }
structopt = "0.3"
dircpy = "*"
