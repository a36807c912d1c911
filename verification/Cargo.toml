[package]
name = "elsewhere"
version = "0.1.0"
edition = "2021"
publish = false

[dependencies]
jiff = "=0.2.39"
rand = "=0.8.8"
