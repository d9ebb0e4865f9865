[package]
name = "tectonic"
version = "0.1.0"
edition = "2021"
publish = false

[dependencies]
anyhow = "1"
bloom = "0.3"
rand = "0.9"
rand_distr = "0.5"
rand_xoshiro = "0.7"
schemars = "1"
serde = { version = "1", features = ["derive"] }
serde_json = "1"
statrs = "0.18"
