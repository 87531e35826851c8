[package]
name = "battlesnake_alphazero"
version = "0.1.0"
edition = "2021"
publish = false

[dependencies]
battlesnake-game-types = "=0.17.0"
bincode = "=1.3.3"
clap = { version = "=4.6.7", features = ["derive"] }
indicatif = "=0.17.11"
itertools = "=0.12.1"
ndarray = "=0.16.1"
rand = "=0.8.8"
rand_distr = "=0.4.3"
rayon = "=1.12.0"
serde_json = "=1.0.154"
tch = "=0.26.0"
