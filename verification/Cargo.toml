[package]
name = "extsort"
version = "0.1.0"
edition = "2021"
publish = false

[dependencies]
rand = "0.8"
argh = "0.1"
sys-info = "*"
