[package]
name = "mathion"
version = "0.1.0"
edition = "2021"
publish = false

[dependencies]
alga = "0.9"
lazy_static = "1"
