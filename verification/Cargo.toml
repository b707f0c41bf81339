[package]
name = "cs110l"
version = "0.1.0"
edition = "2021"
publish = false

[dependencies]
clap = { version = "4", features = ["derive"] }
crossbeam-channel = "0.5"
http = "0.2"
log = "0.4"
nix = "0.17"
num_cpus = "1"
pretty_env_logger = "0.4"
rand = "0.7"
rustyline = "6"
threadpool = "1"
