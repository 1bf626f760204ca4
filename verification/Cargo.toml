[package]
name = "diffany"
version = "0.1.0"
edition = "2021"
publish = false

[dependencies]
crossterm = "0.26"
errno = "0.3"
