[package]
name = "wss_core"
version = "0.1.0"
edition = "2021"
publish = false

[dependencies]
reed-solomon-erasure = "*"
sha2 = "*"
rand = "*"
