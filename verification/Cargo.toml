[package]
name = "symrs"
version = "0.1.0"
edition = "2021"

[dependencies]
num-complex = "0.4"
