[package]
name = "routesim"
version = "0.1.0"
edition = "2021"
publish = false

[dependencies]
rand = { version = "=0.8.5", features = ["small_rng"] }
rand_distr = "=0.4.3"
crossbeam-channel = "0.5"
siphasher = "1"
chrono = "0.4"
serde_json = "1"
rayon = "1"
clap = { version = "4", features = ["derive"] }
