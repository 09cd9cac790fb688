[package]
name = "voidmap"
version = "0.1.0"
edition = "2021"
publish = false

[dependencies]
orion = "*"
regex = "*"
termion = "*"
dirs = "*"
fs2 = "*"
