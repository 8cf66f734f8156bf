[package]
name = "atuin"
version = "0.1.0"
edition = "2021"
publish = false

[dependencies]
base64 = "0.13"
chacha20poly1305 = "*"
rand = "*"
chrono = "*"
serde = "*"
serde_derive = "*"
serde_json = "*"
structopt = "*"
eyre = "*"
warp = "*"
