[package]
name = "region_cn"
version = "0.1.0"
edition = "2021"

[dependencies]
encoding = "0.2"
