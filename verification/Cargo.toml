[package]
name = "qcow"
version = "0.1.0"
edition = "2021"

[dependencies]
byteorder = "1"
libc = "0.2"
