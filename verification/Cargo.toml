[package]
name = "bytehaus"
version = "0.1.0"
edition = "2021"
publish = false

[dependencies]
bytes = "*"
thiserror = "*"
