[package]
name = "proximity_lights"
version = "0.1.0"
edition = "2021"
publish = false

[dependencies]
rand = "0.8"
smol = "1"
futures = "0.3"
