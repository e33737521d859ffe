[package]
name = "brood_core"
version = "0.1.0"
edition = "2021"
publish = false

[dependencies]
smallvec = "=1.16.4"
boxcar = "=0.2.14"
web-time = "=1.1.0"
num-bigint = "0.4"
num-traits = "0.2"
