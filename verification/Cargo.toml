[package]
name = "dsh_usage"
version = "0.1.0"
edition = "2021"
publish = false

[dependencies]
serde_json = "1"
zstd = "0.13"
jiff = "0.2"
