[package]
name = "gnfs"
version = "0.1.0"
edition = "2021"
publish = false

[dependencies]
log = "=0.4.34"
num-bigint = "0.4"
num-integer = "0.1"
num-traits = "0.2"
rand = "=0.8.8"
rug = { version = "=1.30.0", default-features = false, features = ["integer"] }
