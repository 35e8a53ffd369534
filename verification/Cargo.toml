[package]
name = "ll"
version = "0.1.0"
edition = "2021"

[dependencies]
bumpalo = "3"
