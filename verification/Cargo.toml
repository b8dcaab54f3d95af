[package]
name = "gorst"
version = "0.1.0"
edition = "2021"
publish = false

[dependencies]
custom_error = "*"
inquire = "*"
