[package]
name = "range_tombstone"
version = "0.1.0"
edition = "2021"
publish = false

[dependencies]
async-trait = "0.1"
bytes = "1"
tokio = { version = "1", default-features = false, features = ["rt"] }
