[package]
name = "connect_four"
version = "0.1.0"
edition = "2021"
publish = false

[dependencies]
rand = "0.9"
ansi_term = "0.12"
itertools = "0.14"
