[package]
name = "cabot"
version = "0.1.0"
edition = "2021"
publish = false

[dependencies]
rustls = "0.19"
webpki = "0.21"
webpki-roots = "0.21"
async-std = "1"
clap = "2"
log = "0.4"
pretty_env_logger = "0.4"
futures-core = "0.3"
