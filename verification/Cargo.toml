[package]
name = "kvs"
version = "0.1.0"
edition = "2021"
publish = false

[dependencies]
sled = "0.34"
structopt = "0.3"
log = "0.4"
env_logger = "*"
failure = "0.1"
failure_derive = "0.1"
