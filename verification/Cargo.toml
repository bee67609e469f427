[package]
name = "pyco8"
version = "0.1.0"
edition = "2021"
publish = false

[dependencies]
gl = "=0.14.0"
glutin = "=0.19.0"
cpython = "0.7"
