[package]
name = "router"
version = "0.1.0"
edition = "2021"
publish = false

[dependencies]
anyhow = "*"
chrono = "*"
clap = { version = "*", features = ["derive"] }
csv = "*"
indicatif = "*"
num_cpus = "*"
rusqlite = { version = "*", features = ["bundled"] }
