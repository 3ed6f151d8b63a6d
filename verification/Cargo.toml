[package]
name = "yara_x_re"
version = "0.1.0"
edition = "2021"
publish = false

[dependencies]
regex-syntax = "0.7"
