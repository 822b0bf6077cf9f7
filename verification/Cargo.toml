[package]
name = "beatmap_stats"
version = "0.1.0"
edition = "2021"
publish = false

[dependencies]
clap = "2"
csv = "1"
env_logger = "*"
hex = "0.4"
log = "*"
num_cpus = "*"
serde = { version = "1", features = ["derive"] }
serde_json = "1"
sha1 = "0.10"
