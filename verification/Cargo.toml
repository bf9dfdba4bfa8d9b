[package]
name = "morp"
version = "0.1.0"
edition = "2021"
publish = false

[dependencies]
petgraph = "*"
clap = "2"
git2 = { version = "*", default-features = false }
serde = { version = "*", features = ["derive"] }
serde_json = "*"
