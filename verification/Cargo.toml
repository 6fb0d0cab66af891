[package]
name = "lsap"
version = "0.1.0"
edition = "2021"
publish = false

[dependencies]
argh = "0.1"
compact_str = "*"
serde_json = "1"
