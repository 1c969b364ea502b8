[package]
name = "nl_core"
version = "0.1.0"
edition = "2021"
publish = false

[dependencies]
clap = { version = "*", features = ["derive"] }
colored = "*"
dirs = "*"

[dev-dependencies]
serde_json = "*"
