[package]
name = "approval_voting"
version = "0.1.0"
edition = "2021"
publish = false

[dependencies]
parity-scale-codec = "*"
futures = "*"
strum = { version = "*", features = ["derive"] }
