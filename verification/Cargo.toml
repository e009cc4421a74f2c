[package]
name = "match_engine"
version = "0.1.0"
edition = "2021"
publish = false

[dependencies]
clap = "=4.6.7"
serde = { version = "=1.0.229", features = ["derive"] }
serde_json = "=1.0.151"

[dev-dependencies]
rand = "*"
rand_distr = "*"
