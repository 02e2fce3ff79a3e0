[package]
name = "dzr"
version = "0.1.0"
edition = "2021"
publish = false

[dependencies]
bincode = "1"
clap = "4"
csv = "1"
geojson = "*"
osmpbfreader = "*"
rayon = "1"
rocket = "0.5"
serde = { version = "1", features = ["derive"] }
serde_json = "1"
