[package]
name = "slimetools"
version = "0.1.0"
edition = "2021"
publish = false

[dependencies]
anyhow = "1"
chrono = "0.4"
num_cpus = "1"
rayon = "1"
serde = { version = "1", features = ["derive"] }
toml = "0.8"
