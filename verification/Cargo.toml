[package]
name = "action_kv"
version = "0.1.0"
edition = "2021"
publish = false

[dependencies]
byteorder = "1"
crc = "1"
serde = { version = "1", features = ["derive"] }
rand = "0.8"
clap = "3"
trust-dns = { version = "0.16", default-features = false }
piston2d-graphics = "*"
