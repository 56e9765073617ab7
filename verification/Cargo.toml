[package]
name = "llzk_spec"
version = "0.1.0"
edition = "2021"
publish = false

[dependencies]
clap = { version = "4", features = ["derive"] }
serde = { version = "1", features = ["derive"] }
serde_json = "1"
thiserror = "2"
num-bigint = { version = "0.4", features = ["serde"] }
melior = "*"
