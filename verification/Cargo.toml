[package]
name = "cmesh"
version = "0.1.0"
edition = "2021"
publish = false

[dependencies]
rand = "=0.8.8"
clap = { version = "4", features = ["derive"] }
env_logger = "*"
log = "0.4"
serde = "1"
serde_derive = "1"
serde_json = "1"
serde_cbor = "0.11"
local-ip-address = "*"
dittolive-ditto = "=4.14.7"
