[package]
name = "posting_list"
version = "0.1.0"
edition = "2021"

[dependencies]
bitpacking = "*"
