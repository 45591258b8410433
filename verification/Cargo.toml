[package]
name = "wpinq"
version = "0.1.0"
edition = "2021"
publish = false

[dependencies]
fnv = "1.0"
rand = "0.8"
timely = "0.7"
