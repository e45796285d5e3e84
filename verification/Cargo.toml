[package]
name = "cryptolab"
version = "0.1.0"
edition = "2021"
publish = false

[dependencies]
num-bigint = "=0.4.8"
num-integer = "=0.1.47"
num-traits = "=0.2.19"
encoding_rs = "=0.8.42"
clap = { version = "=4.6.7", features = ["derive"] }
console = "=0.15.11"
rand = "=0.8.8"
