[package]
name = "blogmd"
version = "0.1.0"
edition = "2021"
publish = false

[dependencies]
chrono = "0.4"
clap = "2"
failure = "0.1"
