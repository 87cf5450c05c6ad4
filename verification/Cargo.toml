[package]
name = "engine"
version = "0.1.0"
edition = "2021"
publish = false

[dependencies]
lz4_flex = "*"
indexmap = "*"
serde = { version = "1", features = ["derive"] }
toml = "*"
dirs = "*"
rayon = "*"
clap = { version = "4", features = ["derive"] }
