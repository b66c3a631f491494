[package]
name = "parachain-staking"
version = "0.1.0"
edition = "2021"
publish = false

[dependencies]
parity-scale-codec = { version = "*", features = ["derive"] }
scale-info = { version = "*", features = ["derive"] }
sp-runtime = "*"
sp-std = "*"
frame-support = "*"
frame-system = "*"
