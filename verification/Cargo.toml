[package]
name = "plurality_tally"
version = "0.1.0"
edition = "2021"
publish = false

[dependencies]
rand = "0.8"
fake = "2"
serde = { version = "1", features = ["derive"] }
serde_json = "1"
clap = { version = "4", features = ["derive"] }
