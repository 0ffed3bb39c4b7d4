[package]
name = "kvs"
version = "0.1.0"
edition = "2021"
publish = false

[dependencies]
sled = "*"
crossbeam-skiplist = "*"

[dev-dependencies]
async-std = "*"
