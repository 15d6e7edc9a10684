[package]
name = "scarlet"
version = "0.1.0"
edition = "2021"
publish = false

[dependencies]
indexmap = "2"
smallvec = "1"
num-bigint = "0.4"
num-traits = "0.2"
