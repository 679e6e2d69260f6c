[package]
name = "redbush"
version = "0.1.0"
edition = "2021"
publish = false

[dependencies]
bencode-rs = "=0.2.2"
edn = "=0.3.0"
log = "=0.4.34"
chrono = "=0.4.45"
clap = "=2.34.0"
fern = "=0.7.1"
