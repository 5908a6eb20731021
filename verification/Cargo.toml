[package]
name = "cw_store"
version = "0.1.0"
edition = "2021"
publish = false

[dependencies]
blake3 = "=1.8.7"
home = "=0.5.12"
clap = { version = "=4.6.7", features = ["derive"] }
cosmwasm-std = { version = "=3.0.10", features = ["iterator"] }
