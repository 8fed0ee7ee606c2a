[package]
name = "ozes"
version = "0.1.0"
edition = "2021"
publish = false

[dependencies]
async-trait = "*"
bytes = "*"
fast_log = "*"
log = "*"
tokio = { version = "*", features = ["full"] }
