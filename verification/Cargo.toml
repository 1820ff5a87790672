[package]
name = "liveness"
version = "0.1.0"
edition = "2021"
publish = false

[dependencies]
nom = "7"
peg = "0.8"
rustyline = "*"
