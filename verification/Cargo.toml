[package]
name = "plant_sim"
version = "0.1.0"
edition = "2021"
publish = false

[dependencies]
ahash = "0.8"
anyhow = "1"
config = { version = "*", default-features = false, features = ["toml"] }
fixedbitset = "*"
itertools = "*"
nohash = "*"
rand = { version = "0.8", features = ["small_rng"] }
rand_distr = "0.4"
serde = { version = "1", features = ["derive"] }
toml = "*"
