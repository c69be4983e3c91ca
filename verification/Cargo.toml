[package]
name = "dump-json-refs"
version = "0.1.0"
edition = "2021"
publish = false

[dependencies]
anyhow = "1"
clap = { version = "4", features = ["derive"] }
lasso = "0.7"
pathdiff = "0.2"
rusqlite = { version = "*", features = ["bundled"] }
serde_json = "1"
