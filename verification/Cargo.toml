[package]
name = "mirror_stats"
version = "0.1.0"
edition = "2021"
publish = false

[dependencies]
clap = { version = "*", features = ["derive"] }
console = "*"
indicatif = "*"
maxminddb = "*"
plotly = "*"
rayon = "*"
serde = { version = "*", features = ["derive"] }
serde_json = "*"
