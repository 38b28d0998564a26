[package]
name = "tiff-reducer"
version = "0.4.0"
edition = "2021"
publish = false

[dependencies]
rayon = "1"
anyhow = "1"
chrono = "0.4"
clap = { version = "4", features = ["derive"] }
env_logger = "0.11"
image = { version = "0.25", default-features = false, features = ["png", "tiff"] }
indicatif = "0.17"
libc = "0.2"
log = "0.4"
num_cpus = "1"
serde_json = "1"
tempfile = "3"
