[package]
name = "rori"
version = "0.1.0"
edition = "2021"
publish = false

[dependencies]
byteorder = "=1.5.0"
clap = { version = "=4.6.7", features = ["derive"] }
env_logger = "=0.11.11"
fastanvil = { version = "=0.31.0", default-features = false }
indicatif = "=0.18.6"
log = "=0.4.34"
num_cpus = "=1.17.0"
rayon = "=1.12.0"
