[package]
name = "backrub"
version = "0.1.0"
edition = "2021"
publish = false

[dependencies]
blake3 = { version = "=1.8.7", features = ["rayon"] }
chacha20poly1305 = "=0.10.1"
flate2 = "=1.1.10"
rust-argon2 = "=1.0.1"
sled = "=0.34.7"
hash-roll = "=0.3.0"
bincode = "=1.3.3"
serde = { version = "=1.0.229", features = ["derive"] }
serde_json = "=1.0.154"
walkdir = "=2.5.0"
memmap = "=0.7.0"
rayon = "=1.12.0"
clap = "=3.2.25"
clap_complete = "=3.2.5"
log = "=0.4.34"
env_logger = "=0.9.3"
dirs = "=4.0.0"
configparser = "=3.3.0"
humantime = "=2.4.0"
