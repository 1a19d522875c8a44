[package]
name = "appender"
version = "0.1.0"
edition = "2021"
publish = false

[dependencies]
bincode = "1"
memchr = "2"
flate2 = "1"
clap = "2"
