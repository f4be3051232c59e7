[package]
name = "vq"
version = "0.1.0"
edition = "2021"
publish = false

[dependencies]
rand = "0.9"
rand_distr = "0.5"
half = "2"
nalgebra = "*"
rayon = "1"
anyhow = "1"
clap = { version = "4", features = ["derive"] }
serde = { version = "1", features = ["derive"] }
thiserror = "1"
tracing = "0.1"
tracing-subscriber = "0.3"
