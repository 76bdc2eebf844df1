[package]
name = "crc_search"
version = "0.1.0"
edition = "2021"

[dependencies]
threadpool = "*"
