[package]
name = "checkers"
version = "0.1.0"
edition = "2021"

[dependencies]
rustc-hash = "2"
