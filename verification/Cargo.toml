[package]
name = "eve_astar"
version = "0.1.0"
edition = "2021"
publish = false

[dependencies]
clap = { version = "4", features = ["derive"] }
eyre = "0.6"
once_cell = "1"
rayon = "1"
serde = { version = "1", features = ["derive"] }
serde_yaml = "0.9"
zip = { version = "0.6", default-features = false, features = ["deflate"] }
