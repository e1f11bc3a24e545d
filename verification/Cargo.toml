[package]
name = "kestrel"
version = "0.1.0"
edition = "2021"
publish = false

[dependencies]
byteorder = "1"
crc = "1"
failure = "0.1"
fnv = "1"
itertools = "0.10"
