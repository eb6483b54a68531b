[package]
name = "ogg_opus"
version = "0.1.0"
edition = "2021"
publish = false

[dependencies]
crc = "3"
thiserror = "1"
