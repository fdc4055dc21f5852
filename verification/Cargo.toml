[package]
name = "art"
version = "0.1.0"
edition = "2021"

[dependencies]
ipnet = "2"
