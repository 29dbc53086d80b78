[package]
name = "cryt"
version = "0.1.0"
edition = "2021"

[dependencies]
clap = { version = "2", default-features = false }
regex = "1"
