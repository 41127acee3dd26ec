[package]
name = "symblib"
version = "0.1.0"
edition = "2021"
publish = false

[dependencies]
prost = "0.13"
libc = "0.2"
num = "0.4"
