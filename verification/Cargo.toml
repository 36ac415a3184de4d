[package]
name = "hc256"
version = "0.4.0"
edition = "2021"
publish = false

[dependencies]
zeroize = "1"
base64 = "0.13"
clap = "2"
