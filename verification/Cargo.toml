[package]
name = "textutils"
version = "0.1.0"
edition = "2021"
publish = false

[dependencies]
clap = { version = "4", features = ["derive", "cargo", "string"] }
csv = "1"
regex = "1"
walkdir = "2"
