[package]
name = "connect_the_corners"
version = "0.1.0"
edition = "2021"
publish = false

[dependencies]
itertools = "*"
