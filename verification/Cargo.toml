[package]
name = "announcenet"
version = "0.1.0"
edition = "2021"
publish = false

[dependencies]
clap = "2"
decorum = "0.3"
defaultmap = "0.5"
indicatif = "0.15"
matrix_display = "*"
petgraph = "0.6"
plotters = { version = "0.3", default-features = false, features = ["svg_backend", "line_series", "point_series"] }
rayon = "1"
serde = { version = "1", features = ["derive"] }
serde_yaml = "0.8"
