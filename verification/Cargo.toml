[package]
name = "stagehand"
version = "0.1.0"
edition = "2021"
publish = false

[dependencies]
anyhow = "1"
clap = { version = "4", features = ["cargo"] }
derive_more = "0.99"
float-ord = "0.3"
genevo = "0.7"
itertools = "0.11"
num-format = "0.4"
rand = "0.8"
rand_xoshiro = "0.6"
rapier2d = "0.17"
rayon = "1"
rouille = "3"
serde = { version = "1", features = ["derive"] }
serde_json = "1"
