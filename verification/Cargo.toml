[package]
name = "simple_tcp"
version = "0.1.0"
edition = "2021"
publish = false

[dependencies]
fixed-index-vec = "*"
