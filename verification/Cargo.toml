[package]
name = "git-compression-stats"
version = "0.1.0"
edition = "2021"
publish = false

[dependencies]
rayon = "1"
clap = { version = "4", features = ["derive"] }
human-size = "0.4"
indicatif = "0.17"
serde = { version = "1", features = ["derive"] }
serde_json = "1"
