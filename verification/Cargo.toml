[package]
name = "tt"
version = "0.1.0"
edition = "2021"
publish = false

[dependencies]
chrono = "*"
clap = { version = "*", features = ["derive"] }
colored = "*"
dirs = "*"

[dev-dependencies]
serde_json = "*"
