[package]
name = "lithos-core"
version = "0.1.0"
edition = "2021"
publish = false

[dependencies]
blake3 = "=1.8.7"
hex = "=0.4.3"
regex = "=1.13.1"
uuid = { version = "=1.29.0", features = ["v7"] }
getrandom = "=0.4.3"
tracing = "=0.1.44"
zstd = "=0.13.4"
rkyv = "=0.8.18"
