[package]
name = "fat-repair"
version = "0.1.0"
edition = "2021"
publish = false

[dependencies]
bitflags = "1.3"
embedded-io-async = "0.6"
