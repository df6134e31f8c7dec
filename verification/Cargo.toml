[package]
name = "surge_aggregator"
version = "0.1.0"
edition = "2021"
publish = false

[dependencies]
regex = "*"
serde = { version = "*", features = ["derive"] }
jfs = "*"
reqwest = { version = "*", default-features = false, features = ["blocking"] }
