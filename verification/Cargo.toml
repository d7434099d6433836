[package]
name = "partitions"
version = "0.1.0"
edition = "2021"
publish = false

[dependencies]
num-traits = "0.2"
