[package]
name = "dirdump"
version = "0.1.0"
edition = "2021"
publish = false

[dependencies]
chrono = "0.4"
clap = "3"
walkdir = "2"
x11-clipboard = "*"
