[package]
name = "kanshiui"
version = "0.1.0"
edition = "2021"
publish = false

[dependencies]
anyhow = "1"
dirs = "5"
swayipc = "3"
tempfile = "3"
