[package]
name = "contamination"
version = "0.1.0"
edition = "2021"
publish = false

[dependencies]
anyhow = "=1.0.104"
bincode = "=1.3.3"
clap = { version = "=4.6.7", features = ["derive"] }
dashmap = "=5.5.3"
flate2 = "1"
indicatif = "=0.17.11"
rayon = "=1.12.0"
serde_json = "=1.0.154"
