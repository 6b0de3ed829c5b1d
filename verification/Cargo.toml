[package]
name = "replicon_core"
version = "0.1.0"
edition = "2021"
publish = false

[dependencies]
bincode = "1"
bytes = "1"
integer-encoding = "*"
