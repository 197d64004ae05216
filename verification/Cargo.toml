[package]
name = "puffin-requirements"
version = "0.1.0"
edition = "2021"
publish = false

[dependencies]
memchr = "2"
pep508_rs = "0.2"
