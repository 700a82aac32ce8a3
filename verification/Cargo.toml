[package]
name = "zk"
version = "0.1.0"
edition = "2021"
publish = false

[dependencies]
gumdrop = "=0.8.1"
