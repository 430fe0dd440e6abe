[package]
name = "gridmove"
version = "0.1.0"
edition = "2021"
publish = false

[dependencies]
legion = "*"
