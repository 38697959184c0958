[package]
name = "hwgc_soft"
version = "0.1.0"
edition = "2021"
publish = false

[dependencies]
lru = "0.12"
fixedbitset = "0.4"
rand = { version = "0.8", features = ["small_rng"] }
anyhow = "1"
clap = { version = "4", features = ["derive"] }
zstd = "0.13"
prost = "0.12"
serde = { version = "1", features = ["derive"] }
serde_json = "1"
flate2 = "1"
log = "0.4"
env_logger = "0.10"
num_cpus = "1"
libc = "0.2"
