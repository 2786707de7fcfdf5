[package]
name = "spikedb"
version = "0.1.0"
edition = "2021"
publish = false

[dependencies]
serde = { version = "1", features = ["derive"] }
toml = "0.8"
crossbeam-channel = "0.5"
rayon = "1"
