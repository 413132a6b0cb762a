[package]
name = "rustytorrent"
version = "0.1.0"
edition = "2021"
publish = false

[dependencies]
bit-vec = "0.6"
sha1 = "0.10"
rand = "0.8"
mio = { version = "0.8", features = ["net", "os-poll"] }
log = "0.4"
env_logger = "0.10"
