[package]
name = "fuzler"
version = "0.1.0"
edition = "2021"
publish = false

[dependencies]
rustc-hash = "*"
smallvec = "1"
triple_accel = "*"
rustler = "*"
tracing = "0.1"
