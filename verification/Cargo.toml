[package]
name = "rustodo"
version = "0.1.0"
edition = "2021"
publish = false

[dependencies]
chrono = "0.4"
rand = "0.8"
regex = "1"
clap = { version = "4", features = ["derive"] }
colored = "2"

[dev-dependencies]
serde_json = "1"
