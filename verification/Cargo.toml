[package]
name = "sqsh"
version = "0.1.0"
edition = "2021"
publish = false

[dependencies]
crc = "1.8.1"
byteorder = "1"
clap = { version = "4", features = ["derive"] }
clap-verbosity-flag = "2"
env_logger = "0.10"
log = "0.4"
rand = "0.8"
rand_chacha = "0.3"
rand_distr = "0.4"
serde = { version = "1", features = ["derive"] }
serde_json = "1"
tempfile = "3"
toml = "0.5"
