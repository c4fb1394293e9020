[package]
name = "y3"
version = "0.1.0"
edition = "2021"

[dependencies]
regex = "1"
globset = "0.4"
