[package]
name = "pngifier"
version = "1.0.0"
edition = "2021"
publish = false

[dependencies]
flate2 = "1"
crc32fast = "1"
clap = "2"
winapi = "0.3"
