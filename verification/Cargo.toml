[package]
name = "asset_hub"
version = "0.1.0"
edition = "2021"
publish = false

[dependencies]
capnp = "0.10"
futures = "0.1"
lmdb = "0.8"
log = "0.4"
