[package]
name = "algebra"
version = "0.1.0"
edition = "2021"
publish = false

[dependencies]
num = "0.4"
