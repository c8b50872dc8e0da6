[package]
name = "reform"
version = "0.1.0"
edition = "2021"
publish = false

[dependencies]
clap = "2"
env_logger = "*"
num-traits = "0.2"
