[package]
name = "netidx"
version = "0.1.0"
edition = "2021"
publish = false

[dependencies]
chrono = "=0.4.45"
globset = "=0.4.20"
num-traits = "=0.2.19"
rust_decimal = "=1.43.0"
