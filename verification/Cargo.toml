[package]
name = "rb62"
version = "0.1.0"
edition = "2021"
publish = false

[dependencies]
specialized-div-rem = "*"
