[package]
name = "roc_unify"
version = "0.1.0"
edition = "2021"
publish = false

[dependencies]
bumpalo = { version = "*", features = ["collections"] }
wyhash = "*"
