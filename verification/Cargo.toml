[package]
name = "huskarl-route-guard"
version = "0.1.0"
edition = "2021"
publish = false

[dependencies]
http = "1"

[dev-dependencies]
matchit = "0.8"
