[package]
name = "notes"
version = "0.1.0"
edition = "2021"
publish = false

[dependencies]
automerge = "=0.12.0"
uuid = { version = "=1.29.0", features = ["v7"] }
clap = { version = "=4.6.7", features = ["derive"] }
directories = "=6.0.0"
serde_json = "=1.0.154"
