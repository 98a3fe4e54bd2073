[package]
name = "llhd"
version = "0.16.0"
edition = "2021"
publish = false

[dependencies]
hibitset = "0.6"
num = "0.4"
anyhow = "1"
clap = "2"
log = "0.4"
pretty_env_logger = "0.4"
itertools = "0.10"
rayon = "1"
