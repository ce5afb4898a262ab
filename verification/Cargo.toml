[package]
name = "expr_engine"
version = "0.1.0"
edition = "2021"
publish = false

[dependencies]
regex = "=1.13.1"
serde_json = "1"
ta = "=0.5.0"
