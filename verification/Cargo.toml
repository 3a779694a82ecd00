[package]
name = "remote_mem"
version = "0.1.0"
edition = "2021"
publish = false

[dependencies]
nix = { version = "*", features = ["uio", "process", "fs"] }
