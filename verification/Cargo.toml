[package]
name = "monoterm"
version = "0.2.0"
edition = "2021"
publish = false

[dependencies]
filterm = "=0.5.3"
