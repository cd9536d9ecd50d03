[package]
name = "advent2022"
version = "0.1.0"
edition = "2021"
publish = false

[dependencies]
itertools = "0.10.5"
