[package]
name = "praca_magisterska"
version = "0.1.0"
edition = "2021"
publish = false

[dependencies]
rand = "0.9"
cgmath = "0.18"
